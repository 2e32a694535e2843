use vstd::prelude::*;

verus! {

/// Mathematical model of a running aggregate. Values are in tenths.
pub struct Stats {
    pub min: int,
    pub max: int,
    pub count: nat,
    pub sum: int,
}

/// The neutral aggregate: nothing seen yet.
pub open spec fn identity() -> Stats {
    Stats { min: i64::MAX as int, max: i64::MIN as int, count: 0, sum: 0 }
}

pub open spec fn min_int(a: int, b: int) -> int {
    if a <= b { a } else { b }
}

pub open spec fn max_int(a: int, b: int) -> int {
    if a >= b { a } else { b }
}

/// Folding one value into an aggregate.
pub open spec fn update_spec(s: Stats, v: int) -> Stats {
    Stats { min: min_int(s.min, v), max: max_int(s.max, v), count: s.count + 1, sum: s.sum + v }
}

/// Combining two aggregates.
pub open spec fn merge_spec(a: Stats, b: Stats) -> Stats {
    Stats {
        min: min_int(a.min, b.min),
        max: max_int(a.max, b.max),
        count: a.count + b.count,
        sum: a.sum + b.sum,
    }
}

/// The aggregate of a sequence of values, folded left to right.
pub open spec fn fold_values(vs: Seq<int>) -> Stats
    decreases vs.len(),
{
    if vs.len() == 0 {
        identity()
    } else {
        update_spec(fold_values(vs.drop_last()), vs.last())
    }
}

pub open spec fn in_i64(v: int) -> bool {
    i64::MIN <= v <= i64::MAX
}

pub open spec fn all_in_i64(vs: Seq<int>) -> bool {
    forall|i: int| 0 <= i < vs.len() ==> in_i64(#[trigger] vs[i])
}

proof fn lemma_fold_bounds(vs: Seq<int>)
    requires
        all_in_i64(vs),
    ensures
        in_i64(fold_values(vs).min),
        in_i64(fold_values(vs).max),
        fold_values(vs).count == vs.len(),
    decreases vs.len(),
{
    if vs.len() > 0 {
        lemma_fold_bounds(vs.drop_last());
    }
}

/// Merging the aggregates of two disjoint groups of values gives the aggregate
/// of all the values together, whatever the order of the groups.
pub proof fn lemma_merge_of_folds(a: Seq<int>, b: Seq<int>)
    requires
        all_in_i64(a),
        all_in_i64(b),
    ensures
        merge_spec(fold_values(a), fold_values(b)) == fold_values(a + b),
        merge_spec(fold_values(b), fold_values(a)) == fold_values(a + b),
    decreases b.len(),
{
    lemma_fold_bounds(a);
    lemma_fold_bounds(b);
    if b.len() == 0 {
        assert(a + b =~= a);
    } else {
        let b0 = b.drop_last();
        assert(all_in_i64(b0));
        lemma_merge_of_folds(a, b0);
        assert((a + b).drop_last() =~= a + b0);
        assert((a + b).last() == b.last());
    }
}

/// Merging is commutative: the order of the two sides does not matter.
pub proof fn lemma_merge_commutative(a: Stats, b: Stats)
    ensures
        merge_spec(a, b) == merge_spec(b, a),
{
}

/// Merging is associative: how merges are grouped does not matter.
pub proof fn lemma_merge_associative(a: Stats, b: Stats, c: Stats)
    ensures
        merge_spec(merge_spec(a, b), c) == merge_spec(a, merge_spec(b, c)),
{
}

/// The neutral aggregate changes nothing when merged into an aggregate of
/// `i64` values.
pub proof fn lemma_merge_identity(vs: Seq<int>)
    requires
        all_in_i64(vs),
    ensures
        merge_spec(fold_values(vs), identity()) == fold_values(vs),
        merge_spec(identity(), fold_values(vs)) == fold_values(vs),
{
    lemma_fold_bounds(vs);
}

/// Running aggregate of one key: minimum, maximum, count and sum, in tenths.
pub struct State {
    pub min: i64,
    pub max: i64,
    pub count: u64,
    pub sum: i128,
}

impl View for State {
    type V = Stats;

    open spec fn view(&self) -> Stats {
        Stats { min: self.min as int, max: self.max as int, count: self.count as nat, sum: self.sum as int }
    }
}

impl Default for State {
    fn default() -> (r: State)
        ensures
            r@ == identity(),
            r.wf(),
    {
        State::new()
    }
}

impl State {
    /// The neutral aggregate holds no value; the sum stays within what
    /// `count` values of `i64` can add up to.
    pub open spec fn wf(&self) -> bool {
        &&& (self.count == 0 ==> self@ == identity())
        &&& self.count * (i64::MIN as int) <= self.sum <= self.count * (i64::MAX as int)
    }

    pub fn new() -> (r: State)
        ensures
            r@ == identity(),
            r.wf(),
    {
        State { min: i64::MAX, max: i64::MIN, count: 0, sum: 0 }
    }

    pub fn update(&mut self, v: i64)
        requires
            old(self).wf(),
            old(self).count < u64::MAX,
        ensures
            final(self).wf(),
            final(self)@ == update_spec(old(self)@, v as int),
    {
        if v < self.min {
            self.min = v;
        }
        if v > self.max {
            self.max = v;
        }
        assert(self.count * (i64::MAX as int) <= 18446744073709551614 * (i64::MAX as int))
            by (nonlinear_arith)
            requires self.count <= 18446744073709551614;
        assert(self.count * (i64::MIN as int) >= 18446744073709551614 * (i64::MIN as int))
            by (nonlinear_arith)
            requires self.count <= 18446744073709551614;
        self.count = self.count + 1;
        self.sum = self.sum + v as i128;
    }

    pub fn merge(&mut self, other: &State)
        requires
            old(self).wf(),
            other.wf(),
            old(self).count + other.count <= u64::MAX,
        ensures
            final(self).wf(),
            final(self)@ == merge_spec(old(self)@, other@),
    {
        if other.min < self.min {
            self.min = other.min;
        }
        if other.max > self.max {
            self.max = other.max;
        }
        let c: u64 = self.count + other.count;
        assert(c * (i64::MAX as int) <= 18446744073709551615 * (i64::MAX as int))
            by (nonlinear_arith)
            requires c <= 18446744073709551615;
        assert(c * (i64::MIN as int) >= 18446744073709551615 * (i64::MIN as int))
            by (nonlinear_arith)
            requires c <= 18446744073709551615;
        assert(c * (i64::MAX as int) == self.count * (i64::MAX as int) + other.count * (i64::MAX as int))
            by (nonlinear_arith)
            requires c == self.count + other.count;
        assert(c * (i64::MIN as int) == self.count * (i64::MIN as int) + other.count * (i64::MIN as int))
            by (nonlinear_arith)
            requires c == self.count + other.count;
        self.count = c;
        self.sum = self.sum + other.sum;
    }
}

} // verus!
