use vstd::prelude::*;

use crate::bytes::{first_index_of, lemma_first_index_of};
use crate::error::AggError;

verus! {

/// The longest integer part that a value may have, in digits.
pub const MAX_INT_DIGITS: usize = 17;

pub const DOT: u8 = 46;

pub open spec fn is_digit(b: u8) -> bool {
    48 <= b <= 57
}

pub open spec fn all_digits(s: Seq<u8>) -> bool {
    forall|i: int| 0 <= i < s.len() ==> is_digit(#[trigger] s[i])
}

/// The number that a string of decimal digits denotes.
pub open spec fn digits_value(s: Seq<u8>) -> int
    decreases s.len(),
{
    if s.len() == 0 {
        0
    } else {
        digits_value(s.drop_last()) * 10 + (s.last() - 48)
    }
}

pub open spec fn pow10(n: nat) -> int
    decreases n,
{
    if n == 0 {
        1
    } else {
        10 * pow10((n - 1) as nat)
    }
}

pub open spec fn int_part_ok(s: Seq<u8>) -> bool {
    1 <= s.len() <= MAX_INT_DIGITS && all_digits(s)
}

pub open spec fn frac_part_ok(s: Seq<u8>) -> bool {
    1 <= s.len() && all_digits(s)
}

/// Whether the digits after the tenths round the tenths up: the hundredths
/// digit is 5 or more.
pub open spec fn rounds_up(frac: Seq<u8>) -> bool {
    frac.len() >= 2 && frac[1] >= 53
}

/// An unsigned literal, `ddd` or `ddd.ddd`, in tenths, rounded to the nearest
/// tenth with halves away from zero.
pub open spec fn unsigned_tenths(s: Seq<u8>) -> Option<int> {
    let d = first_index_of(s, DOT);
    let frac = s.subrange(d + 1, s.len() as int);
    if int_part_ok(s) {
        Some(10 * digits_value(s))
    } else if 0 <= d < s.len() && int_part_ok(s.subrange(0, d)) && frac_part_ok(frac) {
        Some(10 * digits_value(s.subrange(0, d)) + (frac[0] - 48) + if rounds_up(frac) { 1int } else { 0 })
    } else {
        None
    }
}

/// A decimal literal with an optional sign, in tenths: `None` when the bytes
/// are not such a literal.
pub open spec fn literal_tenths(s: Seq<u8>) -> Option<int> {
    if s.len() > 0 && s[0] == 45u8 {
        match unsigned_tenths(s.subrange(1, s.len() as int)) {
            Some(v) => Some(-v),
            None => None,
        }
    } else if s.len() > 0 && s[0] == 43u8 {
        unsigned_tenths(s.subrange(1, s.len() as int))
    } else {
        unsigned_tenths(s)
    }
}

pub proof fn lemma_digits_bound(s: Seq<u8>)
    requires
        all_digits(s),
    ensures
        0 <= digits_value(s) < pow10(s.len()),
    decreases s.len(),
{
    if s.len() > 0 {
        lemma_digits_bound(s.drop_last());
    }
}

fn is_digit_byte(b: u8) -> (r: bool)
    ensures
        r == is_digit(b),
{
    48 <= b && b <= 57
}

/// Reads a decimal value, `[+-]ddd` or `[+-]ddd.ddd`, as a whole number of
/// tenths; digits past the tenths round it, halves away from zero.
pub fn parse_value(s: &[u8]) -> (r: Result<i64, AggError>)
    ensures
        r is Ok <==> literal_tenths(s@) is Some,
        r is Ok ==> r->Ok_0 == literal_tenths(s@)->Some_0,
        r is Err ==> r->Err_0 == AggError::MalformedNumber,
{
    let len = s.len();
    let mut start: usize = 0;
    let mut negative = false;
    if len > 0 && s[0] == 45u8 {
        start = 1;
        negative = true;
    } else if len > 0 && s[0] == 43u8 {
        start = 1;
    }
    let ghost t = s@.subrange(start as int, len as int);
    assert(literal_tenths(s@) == if negative {
        match unsigned_tenths(t) { Some(v) => Some(-v), None => None }
    } else {
        unsigned_tenths(t)
    }) by {
        if start == 0 {
            assert(t =~= s@);
        }
    }
    proof {
        reveal_with_fuel(pow10, 18);
        lemma_first_index_of(t, DOT);
    }
    let mut acc: i64 = 0;
    let mut i: usize = start;
    while i < len && is_digit_byte(s[i])
        invariant
            start <= i <= len,
            len == s@.len(),
            t == s@.subrange(start as int, len as int),
            i - start <= MAX_INT_DIGITS,
            all_digits(t.subrange(0, i - start)),
            acc == digits_value(t.subrange(0, i - start)),
            pow10(17) == 100000000000000000,
            literal_tenths(s@) == if negative {
                match unsigned_tenths(t) { Some(v) => Some(-v), None => None }
            } else {
                unsigned_tenths(t)
            },
            0 <= first_index_of(t, DOT) <= t.len(),
            first_index_of(t, DOT) < t.len() ==> t[first_index_of(t, DOT)] == DOT,
            forall|j: int| 0 <= j < first_index_of(t, DOT) ==> t[j] != DOT,
        decreases len - i,
    {
        let ghost k = (i - start) as int;
        if i - start == MAX_INT_DIGITS {
            proof {
                assert forall|j: int| 0 <= j < k + 1 implies is_digit(#[trigger] t[j]) by {
                    if j < k {
                        assert(t.subrange(0, k)[j] == t[j]);
                    }
                }
                let d = first_index_of(t, DOT);
                if d <= k && d < t.len() {
                    assert(is_digit(t[d]));
                }
                assert(!int_part_ok(t));
                assert(unsigned_tenths(t) is None);
            }
            return Err(AggError::MalformedNumber);
        }
        proof {
            lemma_digits_bound(t.subrange(0, k));
            lemma_pow10_mono(k as nat, 16);
            assert(t.subrange(0, k + 1).drop_last() =~= t.subrange(0, k));
            assert(t.subrange(0, k + 1).last() == s[i as int]);
        }
        acc = acc * 10 + (s[i] - 48) as i64;
        i = i + 1;
        proof {
            assert forall|j: int| 0 <= j < k + 1 implies is_digit(#[trigger] t.subrange(0, k + 1)[j]) by {
                if j < k {
                    assert(t.subrange(0, k + 1)[j] == t.subrange(0, k)[j]);
                }
            }
        }
    }
    let ghost k = (i - start) as int;
    let ghost d = first_index_of(t, DOT);
    proof {
        lemma_digits_bound(t.subrange(0, k));
        lemma_pow10_mono(k as nat, 17);
        assert forall|j: int| 0 <= j < k implies is_digit(#[trigger] t[j]) by {
            assert(t.subrange(0, k)[j] == t[j]);
        }
        if k < t.len() {
            assert(t[k] == s[i as int]);
        }
    }
    if i == start {
        proof {
            if d < t.len() && int_part_ok(t.subrange(0, d)) {
                assert(t.subrange(0, d)[0] == t[0]);
            }
            assert(unsigned_tenths(t) is None);
        }
        return Err(AggError::MalformedNumber);
    }
    if i == len {
        assert(t.subrange(0, k) =~= t);
        return if negative {
            Ok(-(acc * 10))
        } else {
            Ok(acc * 10)
        };
    }
    if s[i] != DOT {
        proof {
            if d < t.len() && int_part_ok(t.subrange(0, d)) {
                if d < k {
                    assert(is_digit(t[d]));
                } else {
                    assert(t.subrange(0, d)[k] == t[k]);
                }
            }
            assert(unsigned_tenths(t) is None);
        }
        return Err(AggError::MalformedNumber);
    }
    proof {
        if d < k {
            assert(is_digit(t[d]));
        }
        assert(d == k);
    }
    let ghost frac = t.subrange(k + 1, t.len() as int);
    let mut j: usize = i + 1;
    while j < len && is_digit_byte(s[j])
        invariant
            start <= i < j <= len,
            len == s@.len(),
            t == s@.subrange(start as int, len as int),
            frac == t.subrange(k + 1, t.len() as int),
            k == i - start,
            forall|q: int| 0 <= q < j - i - 1 ==> is_digit(#[trigger] frac[q]),
        decreases len - j,
    {
        assert(frac[j - i - 1] == s[j as int]);
        j = j + 1;
    }
    if j < len || j == i + 1 {
        proof {
            if j < len {
                assert(frac[j - i - 1] == s[j as int]);
            }
            assert(!frac_part_ok(frac));
            assert(unsigned_tenths(t) is None);
        }
        return Err(AggError::MalformedNumber);
    }
    proof {
        assert(all_digits(frac));
        assert(frac[0] == s[i + 1]);
        if frac.len() >= 2 {
            assert(frac[1] == s[i + 2]);
        }
    }
    let up: i64 = if i + 2 < len && s[i + 2] >= 53u8 {
        1
    } else {
        0
    };
    let magnitude = acc * 10 + (s[i + 1] - 48) as i64 + up;
    if negative {
        Ok(-magnitude)
    } else {
        Ok(magnitude)
    }
}

pub proof fn lemma_pow10_mono(a: nat, b: nat)
    requires
        a <= b,
    ensures
        1 <= pow10(a) <= pow10(b),
    decreases b,
{
    if a < b {
        lemma_pow10_mono(a, (b - 1) as nat);
    } else if a > 0 {
        lemma_pow10_mono((a - 1) as nat, (a - 1) as nat);
    }
}

} // verus!
