use vstd::prelude::*;

verus! {

/// The index of the first `b` in `s`, or `s.len()` when `s` holds none.
pub open spec fn first_index_of(s: Seq<u8>, b: u8) -> int
    decreases s.len(),
{
    if s.len() == 0 {
        0
    } else if s[0] == b {
        0
    } else {
        1 + first_index_of(s.drop_first(), b)
    }
}

pub proof fn lemma_first_index_of(s: Seq<u8>, b: u8)
    ensures
        0 <= first_index_of(s, b) <= s.len(),
        first_index_of(s, b) < s.len() ==> s[first_index_of(s, b)] == b,
        forall|j: int| 0 <= j < first_index_of(s, b) ==> s[j] != b,
    decreases s.len(),
{
    if s.len() > 0 && s[0] != b {
        lemma_first_index_of(s.drop_first(), b);
        assert forall|j: int| 0 <= j < first_index_of(s, b) implies s[j] != b by {
            if j > 0 {
                assert(s[j] == s.drop_first()[j - 1]);
            }
        }
    }
}

/// Relies on memchr::memchr: the index of the first occurrence of `needle` in
/// `hay`, or `None` when there is none.
#[verifier::external_body]
fn memchr_first(needle: u8, hay: &[u8]) -> (r: Option<usize>)
    ensures
        match r {
            Some(i) => i < hay@.len() && hay@[i as int] == needle && forall|j: int|
                0 <= j < i ==> hay@[j] != needle,
            None => forall|j: int| 0 <= j < hay@.len() ==> hay@[j] != needle,
        },
{
    memchr::memchr(needle, hay)
}

/// The index of the first `needle` in `hay[from..to]`, relative to `from`,
/// or `to - from` when there is none.
pub fn find_byte(needle: u8, hay: &[u8], from: usize, to: usize) -> (r: usize)
    requires
        from <= to <= hay@.len(),
    ensures
        r == first_index_of(hay@.subrange(from as int, to as int), needle),
        r <= to - from,
{
    let window = &hay[from..to];
    let ghost w = hay@.subrange(from as int, to as int);
    proof {
        lemma_first_index_of(w, needle);
    }
    match memchr_first(needle, window) {
        Some(i) => {
            proof {
                let f = first_index_of(w, needle);
                if f < i {
                    assert(w[f] == needle);
                } else if f > i {
                    assert(w[i as int] == needle);
                }
            }
            i
        },
        None => {
            proof {
                let f = first_index_of(w, needle);
                if f < w.len() {
                    assert(w[f] == needle);
                }
            }
            to - from
        },
    }
}

} // verus!
