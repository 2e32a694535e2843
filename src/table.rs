use vstd::prelude::*;

use crate::state::{identity, merge_spec, update_spec, State, Stats};

verus! {

/// The map that a sequence of (key, aggregate) pairs describes.
pub open spec fn entries_map(s: Seq<(Seq<u8>, Stats)>) -> Map<Seq<u8>, Stats>
    decreases s.len(),
{
    if s.len() == 0 {
        Map::empty()
    } else {
        entries_map(s.drop_last()).insert(s.last().0, s.last().1)
    }
}

pub open spec fn keys_unique(s: Seq<(Seq<u8>, Stats)>) -> bool {
    forall|i: int, j: int| 0 <= i < s.len() && 0 <= j < s.len() && i != j ==> s[i].0 != s[j].0
}

/// The aggregate of `k` after one more value `v`.
pub open spec fn add_spec(m: Map<Seq<u8>, Stats>, k: Seq<u8>, v: int) -> Map<Seq<u8>, Stats> {
    m.insert(k, update_spec(if m.contains_key(k) { m[k] } else { identity() }, v))
}

/// Two maps combined: a key in both gets the merge of its two aggregates.
pub open spec fn merge_maps(a: Map<Seq<u8>, Stats>, b: Map<Seq<u8>, Stats>) -> Map<Seq<u8>, Stats> {
    Map::new(
        |k: Seq<u8>| a.contains_key(k) || b.contains_key(k),
        |k: Seq<u8>|
            if a.contains_key(k) && b.contains_key(k) {
                merge_spec(a[k], b[k])
            } else if a.contains_key(k) {
                a[k]
            } else {
                b[k]
            },
    )
}

pub proof fn lemma_entries_map(s: Seq<(Seq<u8>, Stats)>)
    requires
        keys_unique(s),
    ensures
        forall|i: int| 0 <= i < s.len() ==> #[trigger] entries_map(s).contains_key(s[i].0)
            && entries_map(s)[s[i].0] == s[i].1,
        forall|k: Seq<u8>|
            #[trigger] entries_map(s).contains_key(k) ==> exists|i: int|
                0 <= i < s.len() && s[i].0 == k,
    decreases s.len(),
{
    if s.len() > 0 {
        let p = s.drop_last();
        assert(keys_unique(p)) by {
            assert forall|a: int, b: int| 0 <= a < p.len() && 0 <= b < p.len() && a != b implies p[a].0
                != p[b].0 by {
                assert(p[a] == s[a] && p[b] == s[b]);
            }
        }
        lemma_entries_map(p);
        assert forall|i: int| 0 <= i < s.len() implies #[trigger] entries_map(s).contains_key(s[i].0)
            && entries_map(s)[s[i].0] == s[i].1 by {
            if i < s.len() - 1 {
                assert(p[i] == s[i]);
                assert(s[i].0 != s[s.len() - 1].0);
                assert(entries_map(p).contains_key(p[i].0));
            }
        }
        assert forall|k: Seq<u8>| #[trigger] entries_map(s).contains_key(k) implies exists|i: int|
            0 <= i < s.len() && s[i].0 == k by {
            if k != s.last().0 {
                assert(entries_map(p).contains_key(k));
                let i = choose|i: int| 0 <= i < p.len() && p[i].0 == k;
                assert(s[i].0 == k);
            }
        }
    }
}

proof fn lemma_entries_map_update(s: Seq<(Seq<u8>, Stats)>, i: int, v: Stats)
    requires
        keys_unique(s),
        0 <= i < s.len(),
    ensures
        entries_map(s.update(i, (s[i].0, v))) == entries_map(s).insert(s[i].0, v),
    decreases s.len(),
{
    let t = s.update(i, (s[i].0, v));
    if i == s.len() - 1 {
        assert(t.drop_last() =~= s.drop_last());
        assert(entries_map(t) =~= entries_map(s).insert(s[i].0, v));
    } else {
        assert(t.drop_last() =~= s.drop_last().update(i, (s[i].0, v)));
        lemma_entries_map_update(s.drop_last(), i, v);
        assert(entries_map(t) =~= entries_map(s).insert(s[i].0, v));
    }
}

/// One key and its aggregate.
pub struct Entry {
    pub key: Vec<u8>,
    pub state: State,
}

/// How many hash buckets index the entries of a table.
pub const BUCKETS: usize = 4096;

/// Relies on rustc_hash's `FxHasher`: a hash of the bytes. Nothing is assumed
/// of its value, which only picks the bucket where a lookup starts.
#[verifier::external_body]
fn fx_hash(b: &[u8]) -> (r: u64) {
    let mut h = rustc_hash::FxHasher::default();
    std::hash::Hasher::write(&mut h, b);
    std::hash::Hasher::finish(&h)
}

fn bucket_of(key: &[u8]) -> (r: usize)
    ensures
        r < BUCKETS,
{
    (fx_hash(key) % (BUCKETS as u64)) as usize
}

/// Aggregates by key, with each key held once. The buckets hold entry
/// indices by key hash, to find a key without looking at every entry.
pub struct Table {
    pub entries: Vec<Entry>,
    pub buckets: Vec<Vec<usize>>,
}

impl Table {
    pub open spec fn pairs(&self) -> Seq<(Seq<u8>, Stats)> {
        self.entries@.map_values(|e: Entry| (e.key@, e.state@))
    }

    pub open spec fn view(&self) -> Map<Seq<u8>, Stats> {
        entries_map(self.pairs())
    }

    /// Keys are unique and every aggregate is well formed and non-empty.
    pub open spec fn wf(&self) -> bool {
        &&& keys_unique(self.pairs())
        &&& self.buckets@.len() == BUCKETS
        &&& forall|b: int, p: int|
            0 <= b < BUCKETS && 0 <= p < self.buckets@[b]@.len() ==> #[trigger] self.buckets@[b]@[p]
                < self.entries.len()
        &&& forall|i: int|
            0 <= i < self.entries.len() ==> #[trigger] self.entries[i].state.wf()
                && self.entries[i].state.count >= 1
    }

    /// Every aggregate holds at most `n` values.
    pub open spec fn counts_at_most(&self, n: int) -> bool {
        forall|k: Seq<u8>| #[trigger] self.view().contains_key(k) ==> self.view()[k].count <= n
    }

    pub fn new() -> (r: Table)
        ensures
            r.wf(),
            r.view() == Map::<Seq<u8>, Stats>::empty(),
    {
        let mut buckets: Vec<Vec<usize>> = Vec::new();
        while buckets.len() < BUCKETS
            invariant
                buckets@.len() <= BUCKETS,
                forall|b: int| 0 <= b < buckets@.len() ==> (#[trigger] buckets@[b])@.len() == 0,
            decreases BUCKETS - buckets@.len(),
        {
            buckets.push(Vec::new());
        }
        let r = Table { entries: Vec::new(), buckets };
        assert(r.pairs() =~= Seq::<(Seq<u8>, Stats)>::empty());
        r
    }

    pub fn len(&self) -> (r: usize)
        ensures
            r == self.entries.len(),
    {
        self.entries.len()
    }

    /// The index of the entry for `key`, if there is one. The key's hash
    /// bucket is searched first.
    pub fn find(&self, key: &[u8]) -> (r: Option<usize>)
        requires
            self.wf(),
        ensures
            match r {
                Some(i) => i < self.entries.len() && self.entries[i as int].key@ == key@,
                None => !self.view().contains_key(key@),
            },
    {
        proof {
            lemma_entries_map(self.pairs());
        }
        let b = bucket_of(key);
        let bucket = &self.buckets[b];
        let mut p: usize = 0;
        while p < bucket.len()
            invariant
                self.wf(),
                b < BUCKETS,
                bucket == self.buckets@[b as int],
                p <= bucket@.len(),
            decreases bucket.len() - p,
        {
            let idx = bucket[p];
            assert(self.buckets@[b as int]@[p as int] < self.entries.len());
            if bytes_equal(&self.entries[idx].key, key) {
                return Some(idx);
            }
            p = p + 1;
        }
        // The hash promises nothing, so a miss in the bucket is settled by
        // looking at every entry; this happens once per new key.
        let mut i: usize = 0;
        while i < self.entries.len()
            invariant
                self.wf(),
                i <= self.entries.len(),
                forall|j: int| 0 <= j < i ==> self.entries[j].key@ != key@,
            decreases self.entries.len() - i,
        {
            if bytes_equal(&self.entries[i].key, key) {
                return Some(i);
            }
            i = i + 1;
        }
        proof {
            if self.view().contains_key(key@) {
                let j = choose|j: int| 0 <= j < self.pairs().len() && self.pairs()[j].0 == key@;
                assert(self.entries[j].key@ == key@);
            }
        }
        None
    }

    /// Appends an entry for a key that the table does not hold.
    fn push_new(&mut self, key: &[u8], s: State)
        requires
            old(self).wf(),
            !old(self).view().contains_key(key@),
            s.wf(),
            s.count >= 1,
        ensures
            final(self).wf(),
            final(self).view() == old(self).view().insert(key@, s@),
    {
        proof {
            lemma_entries_map(self.pairs());
        }
        let ghost p0 = self.pairs();
        let n = self.entries.len();
        let b = bucket_of(key);
        let e = Entry { key: copy_bytes(key), state: s };
        let ghost eg = e;
        self.entries.push(e);
        self.buckets[b].push(n);
        proof {
            assert(self.pairs() =~= p0.push((key@, eg.state@)));
            assert(self.pairs().drop_last() =~= p0);
            assert forall|a: int, c: int|
                0 <= a < self.pairs().len() && 0 <= c < self.pairs().len() && a != c implies
                self.pairs()[a].0 != self.pairs()[c].0 by {
                if a < p0.len() {
                    assert(p0[a].0 == self.pairs()[a].0);
                    assert(old(self).view().contains_key(p0[a].0));
                }
                if c < p0.len() {
                    assert(p0[c].0 == self.pairs()[c].0);
                    assert(old(self).view().contains_key(p0[c].0));
                }
            }
            assert forall|j: int| 0 <= j < self.entries.len() implies
                #[trigger] self.entries[j].state.wf() && self.entries[j].state.count >= 1 by {
                if j < p0.len() {
                    assert(self.entries[j] == old(self).entries[j]);
                } else {
                    assert(self.entries[j] == eg);
                }
            }
            assert forall|c: int, q: int|
                0 <= c < BUCKETS && 0 <= q < self.buckets@[c]@.len() implies #[trigger] self.buckets@[c]@[q]
                    < self.entries.len() by {
                if c != b || q < old(self).buckets@[c]@.len() {
                    assert(self.buckets@[c]@[q] == old(self).buckets@[c]@[q]);
                }
            }
            assert(keys_unique(self.pairs()));
            assert(self.wf());
        }
    }

    /// Replaces the aggregate of the entry at `i`.
    fn set_state(&mut self, i: usize, s: State)
        requires
            old(self).wf(),
            i < old(self).entries.len(),
            s.wf(),
            s.count >= 1,
        ensures
            final(self).wf(),
            final(self).view() == old(self).view().insert(old(self).entries[i as int].key@, s@),
    {
        let ghost p0 = self.pairs();
        let ghost k = self.entries[i as int].key@;
        let ghost sv = s@;
        let ghost sg = s;
        self.entries[i].state = s;
        proof {
            assert(p0[i as int].0 == k);
            assert(self.pairs() =~= p0.update(i as int, (k, sv)));
            lemma_entries_map_update(p0, i as int, sv);
            assert forall|a: int, c: int|
                0 <= a < self.pairs().len() && 0 <= c < self.pairs().len() && a != c implies
                self.pairs()[a].0 != self.pairs()[c].0 by {
                assert(p0[a].0 == self.pairs()[a].0);
                assert(p0[c].0 == self.pairs()[c].0);
            }
            assert forall|j: int| 0 <= j < self.entries.len() implies
                #[trigger] self.entries[j].state.wf() && self.entries[j].state.count >= 1 by {
                if j != i {
                    assert(self.entries[j] == old(self).entries[j]);
                } else {
                    assert(self.entries[j].state == sg);
                }
            }
            assert(keys_unique(self.pairs()));
            assert(self.wf());
        }
    }

    /// Folds value `v` into the aggregate of `key`, which starts empty.
    pub fn add(&mut self, key: &[u8], v: i64)
        requires
            old(self).wf(),
            old(self).view().contains_key(key@) ==> old(self).view()[key@].count < u64::MAX,
        ensures
            final(self).wf(),
            final(self).view() == add_spec(old(self).view(), key@, v as int),
    {
        proof {
            lemma_entries_map(self.pairs());
        }
        match self.find(key) {
            Some(i) => {
                assert(self.pairs()[i as int].0 == key@);
                assert(old(self).view().contains_key(self.pairs()[i as int].0));
                let e = &self.entries[i];
                let mut st = State { min: e.state.min, max: e.state.max, count: e.state.count, sum: e.state.sum };
                assert(st.wf() && st@ == old(self).view()[key@]);
                st.update(v);
                self.set_state(i, st);
            },
            None => {
                let mut st = State::new();
                st.update(v);
                self.push_new(key, st);
            },
        }
    }

    /// Merges `s` into the aggregate of `key`; an absent key takes `s` as it is.
    pub fn merge_entry(&mut self, key: &[u8], s: &State)
        requires
            old(self).wf(),
            s.wf(),
            s.count >= 1,
            old(self).view().contains_key(key@) ==> old(self).view()[key@].count + s.count <= u64::MAX,
        ensures
            final(self).wf(),
            final(self).view() == old(self).view().insert(
                key@,
                if old(self).view().contains_key(key@) {
                    merge_spec(old(self).view()[key@], s@)
                } else {
                    s@
                },
            ),
    {
        proof {
            lemma_entries_map(self.pairs());
        }
        match self.find(key) {
            Some(i) => {
                assert(self.pairs()[i as int].0 == key@);
                assert(old(self).view().contains_key(self.pairs()[i as int].0));
                let e = &self.entries[i];
                let mut st = State { min: e.state.min, max: e.state.max, count: e.state.count, sum: e.state.sum };
                assert(st.wf() && st@ == old(self).view()[key@]);
                st.merge(s);
                self.set_state(i, st);
            },
            None => {
                let st = State { min: s.min, max: s.max, count: s.count, sum: s.sum };
                self.push_new(key, st);
            },
        }
    }

    /// Whether every key of both tables has at most `u64::MAX` values in all,
    /// so that `merge` may combine them.
    pub fn can_merge(&self, other: &Table) -> (r: bool)
        requires
            self.wf(),
            other.wf(),
        ensures
            r == forall|k: Seq<u8>|
                self.view().contains_key(k) && other.view().contains_key(k) ==> #[trigger] self.view()[k].count
                    + other.view()[k].count <= u64::MAX,
    {
        proof {
            lemma_entries_map(self.pairs());
            lemma_entries_map(other.pairs());
        }
        let mut j: usize = 0;
        while j < other.entries.len()
            invariant
                self.wf(),
                other.wf(),
                j <= other.entries.len(),
                forall|i: int| 0 <= i < other.pairs().len() ==> #[trigger] other.view().contains_key(other.pairs()[i].0)
                    && other.view()[other.pairs()[i].0] == other.pairs()[i].1,
                forall|i: int| 0 <= i < self.pairs().len() ==> #[trigger] self.view().contains_key(self.pairs()[i].0)
                    && self.view()[self.pairs()[i].0] == self.pairs()[i].1,
                forall|i: int|
                    0 <= i < j && #[trigger] self.view().contains_key(other.pairs()[i].0) ==> self.view()[other.pairs()[i].0].count
                        + other.pairs()[i].1.count <= u64::MAX,
            decreases other.entries.len() - j,
        {
            let e = &other.entries[j];
            assert(other.pairs()[j as int].0 == e.key@);
            match self.find(&e.key) {
                Some(i) => {
                    assert(self.pairs()[i as int].0 == e.key@);
                    if self.entries[i].state.count > u64::MAX - e.state.count {
                        assert(self.view().contains_key(self.pairs()[i as int].0));
                        assert(other.view().contains_key(other.pairs()[j as int].0));
                        assert(self.view()[e.key@].count + other.view()[e.key@].count > u64::MAX);
                        return false;
                    }
                },
                None => {},
            }
            j = j + 1;
        }
        proof {
            assert forall|k: Seq<u8>|
                self.view().contains_key(k) && other.view().contains_key(k) implies #[trigger] self.view()[k].count
                    + other.view()[k].count <= u64::MAX by {
                let i = choose|i: int| 0 <= i < other.pairs().len() && other.pairs()[i].0 == k;
                assert(self.view().contains_key(other.pairs()[i].0));
            }
        }
        true
    }
}


/// Merges every aggregate of `other` into `a`, key by key: a key in both
/// gets the merge of its two aggregates, any other key is taken as it is.
pub fn merge(a: &mut Table, other: &Table)
    requires
        old(a).wf(),
        other.wf(),
        forall|k: Seq<u8>|
            old(a).view().contains_key(k) && other.view().contains_key(k) ==> #[trigger] old(a).view()[k].count + other.view()[k].count <= u64::MAX,
    ensures
        final(a).wf(),
        final(a).view() == merge_maps(old(a).view(), other.view()),
{
    let ghost a0 = a.view();
    let ghost p = other.pairs();
    proof {
        lemma_entries_map(p);
        assert(p.subrange(0, 0) =~= Seq::<(Seq<u8>, Stats)>::empty());
        assert(merge_maps(a0, Map::empty()) =~= a0);
    }
    let mut j: usize = 0;
    while j < other.entries.len()
        invariant
            other.wf(),
            p == other.pairs(),
            j <= other.entries.len(),
            a.wf(),
            a.view() == merge_maps(a0, entries_map(p.subrange(0, j as int))),
            forall|k: Seq<u8>|
                a0.contains_key(k) && other.view().contains_key(k) ==> #[trigger] a0[k].count
                    + other.view()[k].count <= u64::MAX,
            forall|i: int| 0 <= i < p.len() ==> #[trigger] other.view().contains_key(p[i].0)
                && other.view()[p[i].0] == p[i].1,
        decreases other.entries.len() - j,
    {
        let ghost m = entries_map(p.subrange(0, j as int));
        let ghost k = p[j as int].0;
        let ghost v = p[j as int].1;
        proof {
            assert(keys_unique(p.subrange(0, j as int)));
            lemma_entries_map(p.subrange(0, j as int));
            if m.contains_key(k) {
                let i = choose|i: int| 0 <= i < j && p.subrange(0, j as int)[i].0 == k;
                assert(p[i].0 == p[j as int].0);
            }
            assert(other.view().contains_key(p[j as int].0));
        }
        let e = &other.entries[j];
        assert(other.wf());
        assert(other.entries[j as int].state.wf());
        assert(other.entries[j as int].state.count >= 1);
        a.merge_entry(&e.key, &e.state);
        j = j + 1;
        proof {
            assert(p.subrange(0, j as int).drop_last() =~= p.subrange(0, j - 1));
            assert(merge_maps(a0, entries_map(p.subrange(0, j as int))) =~= merge_maps(a0, m).insert(
                k,
                if a0.contains_key(k) { merge_spec(a0[k], v) } else { v },
            ));
        }
    }
    assert(p.subrange(0, j as int) =~= p);
}

/// A fresh vector holding the bytes of `a`.
pub fn copy_bytes(a: &[u8]) -> (r: Vec<u8>)
    ensures
        r@ == a@,
{
    let mut r: Vec<u8> = Vec::new();
    let mut i: usize = 0;
    while i < a.len()
        invariant
            i <= a@.len(),
            r@ == a@.subrange(0, i as int),
        decreases a.len() - i,
    {
        r.push(a[i]);
        i = i + 1;
        assert(r@ =~= a@.subrange(0, i as int));
    }
    assert(a@.subrange(0, a@.len() as int) =~= a@);
    r
}

/// Whether two byte strings are equal.
pub fn bytes_equal(a: &[u8], b: &[u8]) -> (r: bool)
    ensures
        r == (a@ == b@),
{
    if a.len() != b.len() {
        return false;
    }
    let mut i: usize = 0;
    while i < a.len()
        invariant
            a@.len() == b@.len(),
            i <= a@.len(),
            forall|j: int| 0 <= j < i ==> a@[j] == b@[j],
        decreases a.len() - i,
    {
        if a[i] != b[i] {
            return false;
        }
        i = i + 1;
    }
    assert(a@ =~= b@);
    true
}

} // verus!
