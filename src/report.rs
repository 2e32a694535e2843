use vstd::prelude::*;

use crate::bytes::{first_index_of, lemma_first_index_of};
use crate::parse::{
    all_digits, digits_value, frac_part_ok, int_part_ok, is_digit, literal_tenths, pow10, rounds_up,
    unsigned_tenths, DOT,
};
use crate::state::{State, Stats};
use crate::table::{entries_map, keys_unique, lemma_entries_map, Table};

verus! {

/// Byte-wise lexicographic order: `a` comes strictly before `b`.
pub open spec fn lex_lt(a: Seq<u8>, b: Seq<u8>) -> bool
    decreases a.len(),
{
    if a.len() == 0 {
        b.len() > 0
    } else if b.len() == 0 {
        false
    } else if a[0] != b[0] {
        a[0] < b[0]
    } else {
        lex_lt(a.drop_first(), b.drop_first())
    }
}

/// Keys in strictly ascending order, each next to the one after it.
pub open spec fn sorted_by_key(es: Seq<(Seq<u8>, Stats)>) -> bool {
    forall|i: int| 0 <= i < es.len() - 1 ==> lex_lt(#[trigger] es[i].0, es[i + 1].0)
}

/// The decimal digits of `n`.
pub open spec fn decimal(n: nat) -> Seq<u8>
    decreases n,
{
    if n < 10 {
        seq![(48 + n) as u8]
    } else {
        decimal(n / 10) + seq![(48 + n % 10) as u8]
    }
}

/// A number of tenths written with one fractional digit, such as `-4.0`.
pub open spec fn fmt_tenths(v: int) -> Seq<u8> {
    let a: nat = if v < 0 { (-v) as nat } else { v as nat };
    (if v < 0 { seq![45u8] } else { Seq::empty() }) + decimal(a / 10) + seq![46u8, (48 + a % 10) as u8]
}

/// `a / c`, rounded to the nearest whole number, halves away from zero.
pub open spec fn round_div(a: nat, c: nat) -> nat {
    if 2 * (a % c) >= c {
        (a / c + 1) as nat
    } else {
        a / c
    }
}

/// The mean of an aggregate in tenths, rounded half away from zero.
pub open spec fn mean_tenths(s: Stats) -> int {
    if s.sum < 0 {
        -round_div((-s.sum) as nat, s.count)
    } else {
        round_div(s.sum as nat, s.count) as int
    }
}

/// `key=min/mean/max`.
pub open spec fn render_entry(e: (Seq<u8>, Stats)) -> Seq<u8> {
    e.0 + seq![61u8] + fmt_tenths(e.1.min) + seq![47u8] + fmt_tenths(mean_tenths(e.1)) + seq![47u8]
        + fmt_tenths(e.1.max)
}

/// The entries rendered in order, separated by `, `.
pub open spec fn render_list(es: Seq<(Seq<u8>, Stats)>) -> Seq<u8>
    decreases es.len(),
{
    if es.len() == 0 {
        Seq::empty()
    } else if es.len() == 1 {
        render_entry(es[0])
    } else {
        render_list(es.drop_last()) + seq![44u8, 32u8] + render_entry(es.last())
    }
}

/// The whole report: `{k1=a/b/c, k2=d/e/f}`.
pub open spec fn render(es: Seq<(Seq<u8>, Stats)>) -> Seq<u8> {
    seq![123u8] + render_list(es) + seq![125u8]
}

proof fn lemma_lex_total(a: Seq<u8>, b: Seq<u8>)
    ensures
        a == b || lex_lt(a, b) || lex_lt(b, a),
        !(lex_lt(a, b) && lex_lt(b, a)),
        !lex_lt(a, a),
    decreases a.len(),
{
    if a.len() > 0 && b.len() > 0 && a[0] == b[0] {
        lemma_lex_total(a.drop_first(), b.drop_first());
        if a.drop_first() == b.drop_first() {
            assert(a =~= seq![a[0]] + a.drop_first());
            assert(b =~= seq![b[0]] + b.drop_first());
        }
    } else if a.len() > 0 && b.len() > 0 {
    } else if a.len() == 0 && b.len() == 0 {
        assert(a =~= b);
    }
    if a.len() > 0 {
        lemma_lex_total(a.drop_first(), a.drop_first());
    }
}

/// Whether `a` comes strictly before `b` in byte-wise lexicographic order.
pub fn bytes_less(a: &[u8], b: &[u8]) -> (r: bool)
    ensures
        r == lex_lt(a@, b@),
{
    let mut i: usize = 0;
    assert(a@.subrange(0, a@.len() as int) =~= a@);
    assert(b@.subrange(0, b@.len() as int) =~= b@);
    while i < a.len() && i < b.len() && a[i] == b[i]
        invariant
            i <= a@.len(),
            i <= b@.len(),
            lex_lt(a@, b@) == lex_lt(a@.subrange(i as int, a@.len() as int), b@.subrange(i as int, b@.len() as int)),
        decreases a.len() - i,
    {
        let ghost sa = a@.subrange(i as int, a@.len() as int);
        let ghost sb = b@.subrange(i as int, b@.len() as int);
        assert(sa.drop_first() =~= a@.subrange(i + 1, a@.len() as int));
        assert(sb.drop_first() =~= b@.subrange(i + 1, b@.len() as int));
        assert(sa[0] == a@[i as int]);
        assert(sb[0] == b@[i as int]);
        i = i + 1;
    }
    let ghost sa = a@.subrange(i as int, a@.len() as int);
    let ghost sb = b@.subrange(i as int, b@.len() as int);
    if i == a.len() {
        i < b.len()
    } else if i == b.len() {
        false
    } else {
        assert(sa[0] == a@[i as int]);
        assert(sb[0] == b@[i as int]);
        a[i] < b[i]
    }
}

fn push_decimal(out: &mut Vec<u8>, n: u128)
    ensures
        final(out)@ == old(out)@ + decimal(n as nat),
    decreases n,
{
    if n >= 10 {
        push_decimal(out, n / 10);
    }
    out.push((48 + n % 10) as u8);
    assert(final(out)@ =~= old(out)@ + decimal(n as nat));
}

/// Appends a number of tenths, given by its sign and magnitude, with one
/// fractional digit.
fn push_tenths(out: &mut Vec<u8>, negative: bool, a: u128)
    ensures
        final(out)@ == old(out)@ + fmt_tenths(if negative { -(a as int) } else { a as int }),
{
    let ghost v: int = if negative { -(a as int) } else { a as int };
    let neg = negative && a > 0;
    if neg {
        out.push(45u8);
    }
    push_decimal(out, a / 10);
    out.push(46u8);
    out.push((48 + a % 10) as u8);
    assert(final(out)@ =~= old(out)@ + fmt_tenths(v));
}

fn push_i64_tenths(out: &mut Vec<u8>, v: i64)
    ensures
        final(out)@ == old(out)@ + fmt_tenths(v as int),
{
    if v < 0 {
        push_tenths(out, true, (-(v as i128)) as u128);
    } else {
        push_tenths(out, false, v as u128);
    }
}

/// Appends `key=min/mean/max` for one aggregate.
fn push_entry(out: &mut Vec<u8>, key: &[u8], s: &State)
    requires
        s.wf(),
        s.count >= 1,
    ensures
        final(out)@ == old(out)@ + render_entry((key@, s@)),
{
    let mut i: usize = 0;
    while i < key.len()
        invariant
            i <= key@.len(),
            out@ == old(out)@ + key@.subrange(0, i as int),
        decreases key.len() - i,
    {
        out.push(key[i]);
        i = i + 1;
        assert(out@ =~= old(out)@ + key@.subrange(0, i as int));
    }
    assert(key@.subrange(0, key@.len() as int) =~= key@);
    out.push(61u8);
    push_i64_tenths(out, s.min);
    out.push(47u8);
    let c = s.count as u128;
    let negative = s.sum < 0;
    assert(s.sum >= s.count * (i64::MIN as int));
    assert(s.count * (i64::MIN as int) >= 18446744073709551615 * (i64::MIN as int))
        by (nonlinear_arith)
        requires s.count <= 18446744073709551615;
    let a: u128 = if negative { (-s.sum) as u128 } else { s.sum as u128 };
    let q = a / c;
    let rem = a % c;
    let m: u128 = if 2 * rem >= c { q + 1 } else { q };
    assert(q <= a) by (nonlinear_arith)
        requires c >= 1, q == a / c;
    push_tenths(out, negative, m);
    out.push(47u8);
    push_i64_tenths(out, s.max);
    assert(out@ =~= old(out)@ + render_entry((key@, s@)));
}

proof fn lemma_entries_map_insert(es: Seq<(Seq<u8>, Stats)>, p: int, x: (Seq<u8>, Stats))
    requires
        keys_unique(es),
        0 <= p <= es.len(),
        !entries_map(es).contains_key(x.0),
    ensures
        keys_unique(es.insert(p, x)),
        entries_map(es.insert(p, x)) == entries_map(es).insert(x.0, x.1),
{
    let t = es.insert(p, x);
    lemma_entries_map(es);
    assert forall|a: int, b: int| 0 <= a < t.len() && 0 <= b < t.len() && a != b implies t[a].0 != t[b].0 by {
        if a != p && b != p {
            let ia = if a < p { a } else { a - 1 };
            let ib = if b < p { b } else { b - 1 };
            assert(t[a] == es[ia]);
            assert(t[b] == es[ib]);
        } else if a == p {
            let ib = if b < p { b } else { b - 1 };
            assert(t[b] == es[ib]);
            assert(entries_map(es).contains_key(es[ib].0));
        } else {
            let ia = if a < p { a } else { a - 1 };
            assert(t[a] == es[ia]);
            assert(entries_map(es).contains_key(es[ia].0));
        }
    }
    lemma_entries_map(t);
    let lhs = entries_map(t);
    let rhs = entries_map(es).insert(x.0, x.1);
    assert forall|k: Seq<u8>| lhs.contains_key(k) <==> rhs.contains_key(k) by {
        if lhs.contains_key(k) {
            let i = choose|i: int| 0 <= i < t.len() && t[i].0 == k;
            if i < p {
                assert(t[i] == es[i]);
                assert(entries_map(es).contains_key(es[i].0));
            } else if i > p {
                assert(t[i] == es[i - 1]);
                assert(entries_map(es).contains_key(es[i - 1].0));
            }
        }
        if rhs.contains_key(k) {
            if k == x.0 {
                assert(t[p].0 == x.0);
                assert(lhs.contains_key(t[p].0));
            } else {
                let i = choose|i: int| 0 <= i < es.len() && es[i].0 == k;
                let j = if i < p { i } else { i + 1 };
                assert(t[j] == es[i]);
                assert(lhs.contains_key(t[j].0));
            }
        }
    }
    assert forall|k: Seq<u8>| lhs.contains_key(k) implies lhs[k] == rhs[k] by {
        let i = choose|i: int| 0 <= i < t.len() && t[i].0 == k;
        assert(lhs.contains_key(t[i].0));
        if i < p {
            assert(t[i] == es[i]);
            assert(entries_map(es).contains_key(es[i].0));
        } else if i > p {
            assert(t[i] == es[i - 1]);
            assert(entries_map(es).contains_key(es[i - 1].0));
        }
    }
    assert(lhs =~= rhs);
}

/// The entries of `t` in the order that `order` gives.
pub open spec fn ordered(t: &Table, order: Seq<usize>) -> Seq<(Seq<u8>, Stats)> {
    order.map_values(|i: usize| t.pairs()[i as int])
}

/// The indices of the table's entries, ordered by key.
fn sorted_order(t: &Table) -> (r: Vec<usize>)
    requires
        t.wf(),
    ensures
        forall|p: int| 0 <= p < r.len() ==> #[trigger] r[p] < t.entries.len(),
        sorted_by_key(ordered(t, r@)),
        keys_unique(ordered(t, r@)),
        entries_map(ordered(t, r@)) == t.view(),
{
    let ghost pairs = t.pairs();
    let n = t.entries.len();
    let mut order: Vec<usize> = Vec::new();
    let mut j: usize = 0;
    proof {
        assert(ordered(t, order@) =~= Seq::<(Seq<u8>, Stats)>::empty());
        assert(pairs.subrange(0, 0) =~= Seq::<(Seq<u8>, Stats)>::empty());
    }
    while j < n
        invariant
            t.wf(),
            pairs == t.pairs(),
            n == t.entries.len(),
            j <= n,
            forall|p: int| 0 <= p < order.len() ==> #[trigger] order[p] < j,
            sorted_by_key(ordered(t, order@)),
            keys_unique(ordered(t, order@)),
            entries_map(ordered(t, order@)) == entries_map(pairs.subrange(0, j as int)),
        decreases n - j,
    {
        let ghost es = ordered(t, order@);
        let ghost x = pairs[j as int];
        let key = &t.entries[j].key;
        proof {
            assert(keys_unique(pairs.subrange(0, j as int)));
            lemma_entries_map(pairs.subrange(0, j as int));
            lemma_entries_map(es);
            if entries_map(pairs.subrange(0, j as int)).contains_key(x.0) {
                let i = choose|i: int| 0 <= i < j && pairs.subrange(0, j as int)[i].0 == x.0;
                assert(pairs[i].0 == pairs[j as int].0);
            }
        }
        let mut p: usize = 0;
        while p < order.len() && bytes_less(&t.entries[order[p]].key, key)
            invariant
                t.wf(),
                pairs == t.pairs(),
                es == ordered(t, order@),
                x == pairs[j as int],
                key@ == x.0,
                j < n,
                n == t.entries.len(),
                forall|q: int| 0 <= q < order.len() ==> #[trigger] order[q] < j,
                p <= order.len(),
                forall|q: int| 0 <= q < p ==> lex_lt(#[trigger] es[q].0, x.0),
            decreases order.len() - p,
        {
            assert(es[p as int].0 == t.entries[order[p as int] as int].key@);
            p = p + 1;
        }
        proof {
            if p < order.len() {
                assert(es[p as int].0 == t.entries[order[p as int] as int].key@);
                assert(entries_map(es).contains_key(es[p as int].0));
                lemma_lex_total(es[p as int].0, x.0);
            }
            if p > 0 {
                assert(lex_lt(es[p - 1].0, x.0));
            }
        }
        order.insert(p, j);
        proof {
            let es2 = ordered(t, order@);
            assert(es2 =~= es.insert(p as int, x));
            lemma_entries_map_insert(es, p as int, x);
            assert(pairs.subrange(0, j + 1).drop_last() =~= pairs.subrange(0, j as int));
            assert forall|i: int| 0 <= i < es2.len() - 1 implies lex_lt(#[trigger] es2[i].0, es2[i + 1].0) by {
                if i + 1 < p {
                    assert(es2[i] == es[i] && es2[i + 1] == es[i + 1]);
                } else if i + 1 == p {
                    assert(es2[i] == es[i]);
                } else if i == p {
                    assert(es2[i + 1] == es[i]);
                } else {
                    assert(es2[i] == es[i - 1] && es2[i + 1] == es[i]);
                }
            }
        }
        j = j + 1;
    }
    proof {
        assert(pairs.subrange(0, n as int) =~= pairs);
    }
    order
}

/// Renders the table as `{k1=min/mean/max, k2=...}`, keys in ascending
/// byte order, each number with one fractional digit and the mean rounded
/// half away from zero.
pub fn report(t: &Table) -> (r: Vec<u8>)
    requires
        t.wf(),
    ensures
        exists|es: Seq<(Seq<u8>, Stats)>|
            sorted_by_key(es) && keys_unique(es) && entries_map(es) == t.view() && r@ == render(es),
{
    let order = sorted_order(t);
    let ghost es = ordered(t, order@);
    let mut out: Vec<u8> = Vec::new();
    out.push(123u8);
    let mut p: usize = 0;
    proof {
        assert(es.subrange(0, 0) =~= Seq::<(Seq<u8>, Stats)>::empty());
        assert(out@ =~= seq![123u8] + render_list(es.subrange(0, 0)));
    }
    while p < order.len()
        invariant
            t.wf(),
            es == ordered(t, order@),
            forall|q: int| 0 <= q < order.len() ==> #[trigger] order[q] < t.entries.len(),
            p <= order.len(),
            out@ == seq![123u8] + render_list(es.subrange(0, p as int)),
        decreases order.len() - p,
    {
        let ghost before = out@;
        if p > 0 {
            out.push(44u8);
            out.push(32u8);
        }
        let e = &t.entries[order[p]];
        assert(t.entries[order[p as int] as int].state.wf());
        push_entry(&mut out, &e.key, &e.state);
        proof {
            let sub = es.subrange(0, p + 1);
            assert(sub.drop_last() =~= es.subrange(0, p as int));
            assert(sub.last() == es[p as int]);
            assert(es[p as int] == (e.key@, e.state@));
            if p == 0 {
                assert(out@ =~= seq![123u8] + render_list(sub));
            } else {
                assert(out@ =~= seq![123u8] + render_list(sub));
            }
        }
        p = p + 1;
    }
    out.push(125u8);
    proof {
        assert(es.subrange(0, es.len() as int) =~= es);
        assert(out@ =~= render(es));
    }
    out
}

proof fn lemma_lex_trans(a: Seq<u8>, b: Seq<u8>, c: Seq<u8>)
    requires
        lex_lt(a, b),
        lex_lt(b, c),
    ensures
        lex_lt(a, c),
    decreases a.len(),
{
    if a.len() > 0 && b.len() > 0 && c.len() > 0 && a[0] == b[0] && b[0] == c[0] {
        lemma_lex_trans(a.drop_first(), b.drop_first(), c.drop_first());
    }
}

proof fn lemma_sorted_pairwise(es: Seq<(Seq<u8>, Stats)>, i: int, j: int)
    requires
        sorted_by_key(es),
        0 <= i < j < es.len(),
    ensures
        lex_lt(es[i].0, es[j].0),
    decreases j - i,
{
    if j > i + 1 {
        lemma_sorted_pairwise(es, i, j - 1);
        assert(lex_lt(es[j - 1].0, es[j].0));
        lemma_lex_trans(es[i].0, es[j - 1].0, es[j].0);
    }
}

proof fn lemma_sorted_unique(es1: Seq<(Seq<u8>, Stats)>, es2: Seq<(Seq<u8>, Stats)>)
    requires
        sorted_by_key(es1),
        sorted_by_key(es2),
        keys_unique(es1),
        keys_unique(es2),
        entries_map(es1) == entries_map(es2),
    ensures
        es1 == es2,
    decreases es1.len(),
{
    lemma_entries_map(es1);
    lemma_entries_map(es2);
    let m = entries_map(es1);
    if es1.len() == 0 || es2.len() == 0 {
        if es1.len() > 0 {
            assert(m.contains_key(es1[0].0));
        }
        if es2.len() > 0 {
            assert(entries_map(es2).contains_key(es2[0].0));
        }
        assert(es1 =~= es2);
    } else {
        let n1 = es1.len() - 1;
        let n2 = es2.len() - 1;
        let k1 = es1[n1].0;
        let k2 = es2[n2].0;
        assert(m.contains_key(k1));
        assert(m.contains_key(k2));
        let j = choose|j: int| 0 <= j < es2.len() && es2[j].0 == k1;
        let i = choose|i: int| 0 <= i < es1.len() && es1[i].0 == k2;
        if j < n2 {
            lemma_sorted_pairwise(es2, j, n2);
            if i < n1 {
                lemma_sorted_pairwise(es1, i, n1);
                lemma_lex_total(k1, k2);
            } else {
                lemma_lex_total(k1, k1);
            }
        }
        assert(k1 == k2);
        assert(es1[n1].1 == m[k1]);
        assert(es2[n2].1 == m[k2]);
        let p1 = es1.drop_last();
        let p2 = es2.drop_last();
        assert(keys_unique(p1)) by {
            assert forall|a: int, b: int| 0 <= a < p1.len() && 0 <= b < p1.len() && a != b implies p1[a].0
                != p1[b].0 by {
                assert(p1[a] == es1[a] && p1[b] == es1[b]);
            }
        }
        assert(keys_unique(p2)) by {
            assert forall|a: int, b: int| 0 <= a < p2.len() && 0 <= b < p2.len() && a != b implies p2[a].0
                != p2[b].0 by {
                assert(p2[a] == es2[a] && p2[b] == es2[b]);
            }
        }
        lemma_entries_map(p1);
        lemma_entries_map(p2);
        assert(!entries_map(p1).contains_key(k1)) by {
            if entries_map(p1).contains_key(k1) {
                let a = choose|a: int| 0 <= a < p1.len() && p1[a].0 == k1;
                assert(es1[a].0 == es1[n1].0);
            }
        }
        assert(!entries_map(p2).contains_key(k2)) by {
            if entries_map(p2).contains_key(k2) {
                let a = choose|a: int| 0 <= a < p2.len() && p2[a].0 == k2;
                assert(es2[a].0 == es2[n2].0);
            }
        }
        assert(entries_map(p1) =~= m.remove(k1));
        assert(entries_map(p2) =~= m.remove(k2));
        assert(sorted_by_key(p1)) by {
            assert forall|a: int| 0 <= a < p1.len() - 1 implies lex_lt(#[trigger] p1[a].0, p1[a + 1].0) by {
                assert(p1[a] == es1[a] && p1[a + 1] == es1[a + 1]);
            }
        }
        assert(sorted_by_key(p2)) by {
            assert forall|a: int| 0 <= a < p2.len() - 1 implies lex_lt(#[trigger] p2[a].0, p2[a + 1].0) by {
                assert(p2[a] == es2[a] && p2[a + 1] == es2[a + 1]);
            }
        }
        lemma_sorted_unique(p1, p2);
        assert(es1 =~= p1.push(es1[n1]));
        assert(es2 =~= p2.push(es2[n2]));
    }
}

/// The report depends on the map of aggregates alone: any two listings of
/// the same map in key order render to the same bytes, so formatting the
/// same map again reproduces the report byte for byte.
pub proof fn lemma_report_determined(es1: Seq<(Seq<u8>, Stats)>, es2: Seq<(Seq<u8>, Stats)>)
    requires
        sorted_by_key(es1),
        sorted_by_key(es2),
        keys_unique(es1),
        keys_unique(es2),
        entries_map(es1) == entries_map(es2),
    ensures
        render(es1) == render(es2),
{
    lemma_sorted_unique(es1, es2);
}

proof fn lemma_decimal(n: nat, k: nat)
    requires
        n < pow10(k),
        k >= 1,
    ensures
        all_digits(decimal(n)),
        digits_value(decimal(n)) == n,
        1 <= decimal(n).len() <= k,
    decreases n,
{
    if n < 10 {
        assert(decimal(n).drop_last() =~= Seq::<u8>::empty());
        assert(decimal(n).last() == (48 + n) as u8);
        assert(digits_value(decimal(n)) == digits_value(decimal(n).drop_last()) * 10 + (decimal(n).last() - 48));
    } else {
        let kk = (k - 1) as nat;
        if k == 1 {
            assert(pow10(1) == 10 * pow10(0));
        }
        assert(pow10(k) == 10 * pow10(kk));
        assert(n / 10 < pow10(kk));
        lemma_decimal(n / 10, kk);
        let d = decimal(n);
        assert(d.drop_last() =~= decimal(n / 10));
        assert(d.last() == (48 + n % 10) as u8);
        assert(n == 10 * (n / 10) + n % 10);
        assert(digits_value(d) == digits_value(decimal(n / 10)) * 10 + (d.last() - 48));
        assert forall|i: int| 0 <= i < d.len() implies is_digit(#[trigger] d[i]) by {
            if i < d.len() - 1 {
                assert(d[i] == decimal(n / 10)[i]);
            }
        }
    }
}

/// Reading back a number that the report wrote gives the same number of
/// tenths, so formatting what was read reproduces the same bytes: a rendered
/// report formats again to itself.
pub proof fn lemma_rendered_number_reads_back(v: int)
    requires
        -1000000000000000000 < v < 1000000000000000000,
    ensures
        literal_tenths(fmt_tenths(v)) == Some(v),
{
    reveal_with_fuel(pow10, 18);
    let a: nat = if v < 0 { (-v) as nat } else { v as nat };
    let d = decimal(a / 10);
    lemma_decimal(a / 10, 17);
    let u = d + seq![46u8, (48 + a % 10) as u8];
    let n = d.len() as int;
    lemma_first_index_of(u, DOT);
    let f = first_index_of(u, DOT);
    assert(u[n] == DOT);
    if f < n {
        assert(u[f] == d[f]);
    }
    assert(f == n);
    assert(!is_digit(u[n]));
    assert(!int_part_ok(u));
    assert(u.subrange(0, f) =~= d);
    let frac = u.subrange(f + 1, u.len() as int);
    assert(frac =~= seq![(48 + a % 10) as u8]);
    assert(frac_part_ok(frac));
    assert(!rounds_up(frac));
    assert(unsigned_tenths(u) == Some(a as int));
    let s = fmt_tenths(v);
    if v < 0 {
        assert(s =~= seq![45u8] + u);
        assert(s.subrange(1, s.len() as int) =~= u);
    } else {
        assert(s =~= u);
        assert(s[0] == d[0]);
    }
}

} // verus!
