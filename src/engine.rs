use vstd::prelude::*;

use crate::aggregate::{aggregate_chunk, aggregate_spec, agg_lines, lines, parse_record, DELIMITER};
use crate::bytes::{first_index_of, lemma_first_index_of};
use crate::error::AggError;
use crate::parse::{int_part_ok, lemma_digits_bound, lemma_pow10_mono, pow10, DOT};
use crate::partition::{partition, NEWLINE};
use crate::report::{render, report, sorted_by_key};
use crate::state::{in_i64, Stats};
use crate::table::{add_spec, entries_map, keys_unique, merge, merge_maps, Table};

verus! {

/// A position of `s` where a line may start: its ends, or just past a newline.
pub open spec fn line_boundary(s: Seq<u8>, b: int) -> bool {
    b == 0 || b == s.len() || (0 < b <= s.len() && s[b - 1] == NEWLINE)
}

/// Cutting at a line boundary keeps every line whole: the lines of `s[a..c]`
/// are those of `s[a..b]` followed by those of `s[b..c]`.
pub proof fn lemma_lines_split(s: Seq<u8>, a: int, b: int, c: int)
    requires
        0 <= a <= b <= c <= s.len(),
        b == a || b == c || s[b - 1] == NEWLINE,
    ensures
        lines(s.subrange(a, c)) == lines(s.subrange(a, b)) + lines(s.subrange(b, c)),
    decreases b - a,
{
    let w = s.subrange(a, c);
    let u = s.subrange(a, b);
    if b == a {
        assert(u =~= Seq::<u8>::empty());
        assert(lines(u) =~= Seq::<Seq<u8>>::empty());
        assert(lines(u) + lines(s.subrange(b, c)) =~= lines(s.subrange(b, c)));
    } else if b == c {
        assert(s.subrange(b, c) =~= Seq::<u8>::empty());
        assert(lines(s.subrange(b, c)) =~= Seq::<Seq<u8>>::empty());
        assert(lines(u) + lines(s.subrange(b, c)) =~= lines(u));
    } else {
        lemma_first_index_of(w, NEWLINE);
        lemma_first_index_of(u, NEWLINE);
        let fw = first_index_of(w, NEWLINE);
        let fu = first_index_of(u, NEWLINE);
        let z = b - 1 - a;
        assert(u[z] == NEWLINE);
        assert(w[z] == NEWLINE);
        assert(fw <= z);
        assert(fu <= z);
        if fw < fu {
            assert(u[fw] == w[fw]);
        }
        if fu < fw {
            assert(u[fu] == w[fu]);
        }
        assert(fw == fu);
        assert(w.subrange(0, fw) =~= u.subrange(0, fu));
        assert(w.subrange(fw + 1, w.len() as int) =~= s.subrange(a + fw + 1, c));
        assert(u.subrange(fu + 1, u.len() as int) =~= s.subrange(a + fu + 1, b));
        if fu == z {
            assert(s.subrange(b, b) =~= Seq::<u8>::empty());
            assert(lines(s.subrange(b, b)) =~= Seq::<Seq<u8>>::empty());
            assert(lines(u) =~= seq![u.subrange(0, fu)]);
            assert(lines(w) =~= lines(u) + lines(s.subrange(b, c)));
        } else {
            lemma_lines_split(s, a + fu + 1, b, c);
            assert(lines(w) =~= lines(u) + lines(s.subrange(b, c)));
        }
    }
}

/// Folding two runs of lines is folding the first, then the second.
pub proof fn lemma_agg_concat(m: Map<Seq<u8>, Stats>, l1: Seq<Seq<u8>>, l2: Seq<Seq<u8>>)
    ensures
        agg_lines(m, l1 + l2) == match agg_lines(m, l1) {
            Ok(m1) => agg_lines(m1, l2),
            Err(e) => Err(e),
        },
    decreases l1.len(),
{
    if l1.len() == 0 {
        assert(l1 + l2 =~= l2);
    } else {
        assert((l1 + l2)[0] == l1[0]);
        assert((l1 + l2).drop_first() =~= l1.drop_first() + l2);
        match parse_record(l1[0]) {
            Err(e) => {},
            Ok((k, v)) => {
                lemma_agg_concat(add_spec(m, k, v), l1.drop_first(), l2);
            },
        }
    }
}

proof fn lemma_record_value_in_i64(line: Seq<u8>)
    ensures
        parse_record(line) is Ok ==> in_i64(parse_record(line)->Ok_0.1),
{
    let d = first_index_of(line, DELIMITER);
    if 0 <= d < line.len() {
        let t = line.subrange(d + 1, line.len() as int);
        let u = if t.len() > 0 && (t[0] == 45u8 || t[0] == 43u8) {
            t.subrange(1, t.len() as int)
        } else {
            t
        };
        let e = first_index_of(u, DOT);
        reveal_with_fuel(pow10, 18);
        if int_part_ok(u) {
            lemma_digits_bound(u);
            lemma_pow10_mono(u.len(), 17);
        } else if 0 <= e < u.len() && int_part_ok(u.subrange(0, e)) {
            lemma_digits_bound(u.subrange(0, e));
            lemma_pow10_mono(e as nat, 17);
        }
    }
}

proof fn lemma_add_under_merge(m: Map<Seq<u8>, Stats>, x: Map<Seq<u8>, Stats>, k: Seq<u8>, v: int)
    requires
        in_i64(v),
    ensures
        merge_maps(m, add_spec(x, k, v)) == add_spec(merge_maps(m, x), k, v),
{
    assert(merge_maps(m, add_spec(x, k, v)) =~= add_spec(merge_maps(m, x), k, v));
}

/// Folding lines into `merge_maps(m, x)` is folding them into `x`, then
/// merging `m` in.
proof fn lemma_agg_shift(m: Map<Seq<u8>, Stats>, x: Map<Seq<u8>, Stats>, l: Seq<Seq<u8>>)
    ensures
        agg_lines(merge_maps(m, x), l) == match agg_lines(x, l) {
            Ok(y) => Ok(merge_maps(m, y)),
            Err(e) => Err::<Map<Seq<u8>, Stats>, AggError>(e),
        },
    decreases l.len(),
{
    if l.len() > 0 {
        lemma_record_value_in_i64(l[0]);
        match parse_record(l[0]) {
            Err(e) => {},
            Ok((k, v)) => {
                lemma_add_under_merge(m, x, k, v);
                lemma_agg_shift(m, add_spec(x, k, v), l.drop_first());
            },
        }
    }
}

/// Aggregating an input cut at a line boundary is aggregating each side and
/// merging the two maps; an error on either side, the first one, stops it.
pub proof fn lemma_split_aggregate(s: Seq<u8>, b: int)
    requires
        0 <= b <= s.len(),
        line_boundary(s, b),
    ensures
        aggregate_spec(s) == match aggregate_spec(s.subrange(0, b)) {
            Ok(x) => match aggregate_spec(s.subrange(b, s.len() as int)) {
                Ok(y) => Ok(merge_maps(x, y)),
                Err(e) => Err::<Map<Seq<u8>, Stats>, AggError>(e),
            },
            Err(e) => Err(e),
        },
{
    lemma_lines_split(s, 0, b, s.len() as int);
    assert(s.subrange(0, s.len() as int) =~= s);
    lemma_agg_concat(Map::empty(), lines(s.subrange(0, b)), lines(s.subrange(b, s.len() as int)));
    match aggregate_spec(s.subrange(0, b)) {
        Ok(x) => {
            assert(merge_maps(x, Map::empty()) =~= x);
            lemma_agg_shift(x, Map::empty(), lines(s.subrange(b, s.len() as int)));
        },
        Err(e) => {},
    }
}

/// `chunks` cut `s` into consecutive pieces that cover it, each cut at a line
/// boundary.
pub open spec fn line_partition(s: Seq<u8>, chunks: Seq<(usize, usize)>) -> bool {
    &&& chunks.len() >= 1
    &&& chunks[0].0 == 0
    &&& chunks.last().1 == s.len()
    &&& forall|i: int| 0 <= i < chunks.len() ==> chunks[i].0 <= #[trigger] chunks[i].1 <= s.len()
    &&& forall|i: int| 0 <= i < chunks.len() - 1 ==> #[trigger] chunks[i].1 == chunks[i + 1].0
    &&& forall|i: int|
        0 <= i < chunks.len() - 1 ==> #[trigger] chunks[i].1 == s.len() || (0 < chunks[i].1
            && s[chunks[i].1 - 1] == NEWLINE)
}

/// What `aggregate_chunk` returns for the chunk `s[start..end]`.
pub open spec fn chunk_result(
    s: Seq<u8>,
    start: int,
    end: int,
    r: Result<Table, AggError>,
) -> bool {
    match r {
        Ok(t) => t.wf() && t.counts_at_most(end - start) && aggregate_spec(s.subrange(start, end))
            == Ok::<Map<Seq<u8>, Stats>, AggError>(t.view()),
        Err(e) => aggregate_spec(s.subrange(start, end)) == Err::<Map<Seq<u8>, Stats>, AggError>(e),
    }
}

/// Merges the results of the chunks of `buf`, in chunk order: the first
/// failed chunk gives the error. The result is the aggregate of the whole
/// input, however it was cut.
pub fn merge_chunks(buf: &[u8], chunks: &Vec<(usize, usize)>, results: &Vec<Result<Table, AggError>>) -> (r:
    Result<Table, AggError>)
    requires
        line_partition(buf@, chunks@),
        results@.len() == chunks@.len(),
        forall|i: int|
            0 <= i < chunks@.len() ==> chunk_result(
                buf@,
                chunks@[i].0 as int,
                chunks@[i].1 as int,
                #[trigger] results@[i],
            ),
    ensures
        match r {
            Ok(t) => t.wf() && aggregate_spec(buf@) == Ok::<Map<Seq<u8>, Stats>, AggError>(t.view()),
            Err(e) => aggregate_spec(buf@) == Err::<Map<Seq<u8>, Stats>, AggError>(e),
        },
{
    let n = chunks.len();
    let mut global = Table::new();
    let mut c: usize = 0;
    let ghost s = buf@;
    proof {
        assert(s.subrange(0, 0) =~= Seq::<u8>::empty());
        assert(lines(s.subrange(0, 0)) =~= Seq::<Seq<u8>>::empty());
    }
    while c < n
        invariant
            s == buf@,
            n == chunks@.len(),
            line_partition(s, chunks@),
            results@.len() == n,
            forall|i: int|
                0 <= i < n ==> chunk_result(s, chunks@[i].0 as int, chunks@[i].1 as int, #[trigger] results@[i]),
            c <= n,
            global.wf(),
            global.counts_at_most(if c == 0 { 0 } else { chunks@[c - 1].1 as int }),
            aggregate_spec(s.subrange(0, if c == 0 { 0 } else { chunks@[c - 1].1 as int })) == Ok::<
                Map<Seq<u8>, Stats>,
                AggError,
            >(global.view()),
        decreases n - c,
    {
        let (st, en) = chunks[c];
        let ghost done: int = if c == 0 { 0 } else { chunks@[c - 1].1 as int };
        assert(st == done);
        assert(chunks@[c as int].0 <= chunks@[c as int].1 <= s.len());
        let ghost g = global.view();
        proof {
            let p = s.subrange(0, en as int);
            assert(p.subrange(0, st as int) =~= s.subrange(0, st as int));
            assert(p.subrange(st as int, p.len() as int) =~= s.subrange(st as int, en as int));
            lemma_split_aggregate(p, st as int);
            if c + 1 == n {
                assert(en == s.len());
            }
            assert(line_boundary(s, en as int));
        }
        assert(chunk_result(s, st as int, en as int, results@[c as int]));
        match &results[c] {
            Err(e) => {
                proof {
                    lemma_split_aggregate(s, en as int);
                }
                return Err(*e);
            },
            Ok(t) => {
                proof {
                    assert forall|k: Seq<u8>|
                        g.contains_key(k) && t.view().contains_key(k) implies #[trigger] g[k].count
                        + t.view()[k].count <= u64::MAX by {
                        assert(g[k].count <= done);
                        assert(t.view()[k].count <= en - st);
                    }
                }
                merge(&mut global, t);
                proof {
                    assert forall|k: Seq<u8>| #[trigger] global.view().contains_key(k) implies global.view()[k].count
                        <= en by {
                        if g.contains_key(k) {
                            assert(g[k].count <= done);
                        }
                        if t.view().contains_key(k) {
                            assert(t.view()[k].count <= en - st);
                        }
                    }
                }
            },
        }
        c = c + 1;
    }
    assert(s.subrange(0, s.len() as int) =~= s);
    Ok(global)
}

/// Aggregates the whole input, cut into `parts` chunks that are aggregated one
/// by one and merged in order. The result is the aggregate of the whole input
/// however many chunks there are.
pub fn summarize(buf: &[u8], parts: usize) -> (r: Result<Table, AggError>)
    requires
        parts >= 1,
    ensures
        match r {
            Ok(t) => t.wf() && aggregate_spec(buf@) == Ok::<Map<Seq<u8>, Stats>, AggError>(t.view()),
            Err(e) => aggregate_spec(buf@) == Err::<Map<Seq<u8>, Stats>, AggError>(e),
        },
{
    let chunks = partition(buf, parts);
    let mut results: Vec<Result<Table, AggError>> = Vec::new();
    let mut c: usize = 0;
    while c < chunks.len()
        invariant
            chunks@.len() == parts,
            forall|i: int| 0 <= i < parts ==> chunks@[i].0 <= #[trigger] chunks@[i].1 <= buf@.len(),
            c <= parts,
            results@.len() == c,
            forall|i: int|
                0 <= i < c ==> chunk_result(buf@, chunks@[i].0 as int, chunks@[i].1 as int, #[trigger] results@[i]),
        decreases parts - c,
    {
        let (st, en) = chunks[c];
        assert(chunks@[c as int].0 <= chunks@[c as int].1 <= buf@.len());
        let r = aggregate_chunk(buf, st, en);
        let ghost before = results@;
        results.push(r);
        c = c + 1;
        proof {
            assert forall|i: int| 0 <= i < c implies chunk_result(
                buf@,
                chunks@[i].0 as int,
                chunks@[i].1 as int,
                #[trigger] results@[i],
            ) by {
                if i < c - 1 {
                    assert(results@[i] == before[i]);
                }
            }
        }
    }
    merge_chunks(buf, &chunks, &results)
}

/// Aggregates the input in `parts` chunks and renders the report: the
/// aggregates of all the records, keys in ascending byte order, or the error
/// of the first bad record.
pub fn run(buf: &[u8], parts: usize) -> (r: Result<Vec<u8>, AggError>)
    requires
        parts >= 1,
    ensures
        match r {
            Ok(out) => exists|es: Seq<(Seq<u8>, Stats)>|
                aggregate_spec(buf@) == Ok::<Map<Seq<u8>, Stats>, AggError>(entries_map(es))
                    && sorted_by_key(es) && keys_unique(es) && out@ == render(es),
            Err(e) => aggregate_spec(buf@) == Err::<Map<Seq<u8>, Stats>, AggError>(e),
        },
{
    match summarize(buf, parts) {
        Ok(t) => Ok(report(&t)),
        Err(e) => Err(e),
    }
}

} // verus!
