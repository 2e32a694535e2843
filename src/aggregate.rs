use vstd::prelude::*;

use crate::bytes::{find_byte, first_index_of, lemma_first_index_of};
use crate::error::AggError;
use crate::parse::{literal_tenths, parse_value};
use crate::partition::NEWLINE;
use crate::state::Stats;
use crate::table::{add_spec, Table};

verus! {

pub const DELIMITER: u8 = 59;

/// The lines of `s`: the pieces between newlines, where a final newline ends
/// the last line rather than starting an empty one.
pub open spec fn lines(s: Seq<u8>) -> Seq<Seq<u8>>
    decreases s.len(),
{
    let f = first_index_of(s, NEWLINE);
    if s.len() == 0 {
        Seq::empty()
    } else if f < 0 || f >= s.len() {
        seq![s]
    } else {
        seq![s.subrange(0, f)] + lines(s.subrange(f + 1, s.len() as int))
    }
}

/// A record split at its first delimiter: the key and the value in tenths.
pub open spec fn parse_record(line: Seq<u8>) -> Result<(Seq<u8>, int), AggError> {
    let d = first_index_of(line, DELIMITER);
    if d < 0 || d >= line.len() {
        Err(AggError::MalformedRecord)
    } else {
        match literal_tenths(line.subrange(d + 1, line.len() as int)) {
            Some(v) => Ok((line.subrange(0, d), v)),
            None => Err(AggError::MalformedNumber),
        }
    }
}

/// Folds the records of `ls`, in order, into `m`; the first bad record stops
/// the fold with its error.
pub open spec fn agg_lines(m: Map<Seq<u8>, Stats>, ls: Seq<Seq<u8>>) -> Result<
    Map<Seq<u8>, Stats>,
    AggError,
>
    decreases ls.len(),
{
    if ls.len() == 0 {
        Ok(m)
    } else {
        match parse_record(ls[0]) {
            Err(e) => Err(e),
            Ok((k, v)) => agg_lines(add_spec(m, k, v), ls.drop_first()),
        }
    }
}

/// The aggregates by key of all the records of `s`, or the error of its first
/// bad record.
pub open spec fn aggregate_spec(s: Seq<u8>) -> Result<Map<Seq<u8>, Stats>, AggError> {
    agg_lines(Map::empty(), lines(s))
}

/// Reads the record `buf[from..to]`: the length of its key and its value.
fn read_record(buf: &[u8], from: usize, to: usize) -> (r: Result<(usize, i64), AggError>)
    requires
        from <= to <= buf@.len(),
    ensures
        match (r, parse_record(buf@.subrange(from as int, to as int))) {
            (Ok((d, v)), Ok((k, w))) => from + d <= to && k == buf@.subrange(from as int, from + d)
                && v == w,
            (Err(e), Err(f)) => e == f,
            _ => false,
        },
{
    let ghost line = buf@.subrange(from as int, to as int);
    let d = find_byte(DELIMITER, buf, from, to);
    if d == to - from {
        return Err(AggError::MalformedRecord);
    }
    let value = &buf[from + d + 1..to];
    assert(value@ =~= line.subrange(d + 1, line.len() as int));
    assert(buf@.subrange(from as int, from + d) =~= line.subrange(0, d as int));
    match parse_value(value) {
        Ok(v) => Ok((d, v)),
        Err(e) => Err(e),
    }
}

/// Aggregates by key the records of the chunk `buf[start..end]`.
pub fn aggregate_chunk(buf: &[u8], start: usize, end: usize) -> (r: Result<Table, AggError>)
    requires
        start <= end <= buf@.len(),
    ensures
        match r {
            Ok(t) => t.wf() && t.counts_at_most(end - start) && aggregate_spec(
                buf@.subrange(start as int, end as int),
            ) == Ok::<Map<Seq<u8>, Stats>, AggError>(t.view()),
            Err(e) => aggregate_spec(buf@.subrange(start as int, end as int)) == Err::<
                Map<Seq<u8>, Stats>,
                AggError,
            >(e),
        },
{
    let mut table = Table::new();
    let mut pos: usize = start;
    assert(buf@.subrange(start as int, end as int) =~= buf@.subrange(pos as int, end as int));
    while pos < end
        invariant
            start <= pos <= end <= buf@.len(),
            table.wf(),
            table.counts_at_most(pos - start),
            aggregate_spec(buf@.subrange(start as int, end as int)) == agg_lines(
                table.view(),
                lines(buf@.subrange(pos as int, end as int)),
            ),
        decreases end - pos,
    {
        let ghost w = buf@.subrange(pos as int, end as int);
        let ghost m0 = table.view();
        let off = find_byte(NEWLINE, buf, pos, end);
        proof {
            lemma_first_index_of(w, NEWLINE);
        }
        let line_end = pos + off;
        let next: usize = if off < end - pos {
            line_end + 1
        } else {
            end
        };
        proof {
            if off < end - pos {
                assert(w.subrange(0, off as int) =~= buf@.subrange(pos as int, line_end as int));
                assert(w.subrange(off + 1, w.len() as int) =~= buf@.subrange(next as int, end as int));
            } else {
                assert(w =~= buf@.subrange(pos as int, line_end as int));
                assert(buf@.subrange(next as int, end as int) =~= Seq::<u8>::empty());
            }
            assert(lines(w)[0] == buf@.subrange(pos as int, line_end as int));
            assert(lines(w).drop_first() =~= lines(buf@.subrange(next as int, end as int)));
        }
        match read_record(buf, pos, line_end) {
            Err(e) => {
                return Err(e);
            },
            Ok((d, v)) => {
                let key = &buf[pos..pos + d];
                proof {
                    if m0.contains_key(key@) {
                        assert(m0[key@].count <= pos - start);
                    }
                }
                table.add(key, v);
                proof {
                    assert forall|k: Seq<u8>| #[trigger] table.view().contains_key(k) implies table.view()[k].count
                        <= next - start by {
                        if k != key@ {
                            assert(m0.contains_key(k));
                        }
                    }
                }
            },
        }
        pos = next;
    }
    assert(buf@.subrange(pos as int, end as int) =~= Seq::<u8>::empty());
    Ok(table)
}

} // verus!
