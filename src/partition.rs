use vstd::prelude::*;

use crate::bytes::{find_byte, first_index_of, lemma_first_index_of};

verus! {

pub const NEWLINE: u8 = 10;

/// The end of the chunk whose boundary search starts at `from`: just past the
/// first newline at or after `from`, or the end of the input.
pub open spec fn boundary_after(s: Seq<u8>, from: int) -> int {
    let f = from + first_index_of(s.subrange(from, s.len() as int), NEWLINE);
    if f < s.len() {
        f + 1
    } else {
        s.len() as int
    }
}

/// Where the boundary search of a chunk that begins at `start` starts.
pub open spec fn search_from(len: int, parts: int, start: int) -> int {
    if start + len / parts <= len {
        start + len / parts
    } else {
        len
    }
}

/// Splits `buf` into `parts` consecutive chunks `[start, end)` that together
/// cover it. Each chunk but the last ends just past the first newline at or
/// after its start plus `len / parts` (or at the end of the input), so no
/// line is ever split.
pub fn partition(buf: &[u8], parts: usize) -> (r: Vec<(usize, usize)>)
    requires
        parts >= 1,
    ensures
        r.len() == parts,
        r[0].0 == 0,
        r[parts - 1].1 == buf@.len(),
        forall|i: int| 0 <= i < parts ==> r[i].0 <= #[trigger] r[i].1 <= buf@.len(),
        forall|i: int| 0 <= i < parts - 1 ==> #[trigger] r[i].1 == r[i + 1].0,
        forall|i: int|
            0 <= i < parts - 1 ==> #[trigger] r[i].1 == boundary_after(
                buf@,
                search_from(buf@.len() as int, parts as int, r[i].0 as int),
            ),
        forall|i: int|
            0 <= i < parts - 1 ==> #[trigger] r[i].1 == buf@.len() || (0 < r[i].1 && buf@[r[i].1
                - 1] == NEWLINE),
{
    let len = buf.len();
    let target = len / parts;
    let mut chunks: Vec<(usize, usize)> = Vec::new();
    let mut start: usize = 0;
    let mut i: usize = 0;
    while i < parts - 1
        invariant
            len == buf@.len(),
            target == len as int / parts as int,
            parts >= 1,
            i <= parts - 1,
            chunks.len() == i,
            start <= len,
            i == 0 ==> start == 0,
            i > 0 ==> chunks[0].0 == 0,
            i > 0 ==> chunks[i - 1].1 == start,
            forall|j: int| 0 <= j < i ==> chunks[j].0 <= #[trigger] chunks[j].1 <= len,
            forall|j: int| 0 <= j < i - 1 ==> #[trigger] chunks[j].1 == chunks[j + 1].0,
            forall|j: int|
                0 <= j < i ==> #[trigger] chunks[j].1 == boundary_after(
                    buf@,
                    search_from(len as int, parts as int, chunks[j].0 as int),
                ),
            forall|j: int|
                0 <= j < i ==> #[trigger] chunks[j].1 == len || (0 < chunks[j].1 && buf@[chunks[j].1
                    - 1] == NEWLINE),
        decreases parts - 1 - i,
    {
        let from: usize = if target <= len - start {
            start + target
        } else {
            len
        };
        let off = find_byte(NEWLINE, buf, from, len);
        proof {
            lemma_first_index_of(buf@.subrange(from as int, len as int), NEWLINE);
        }
        let end: usize = if off < len - from {
            assert(buf@.subrange(from as int, len as int)[off as int] == buf@[from + off]);
            from + off + 1
        } else {
            len
        };
        chunks.push((start, end));
        start = end;
        i = i + 1;
    }
    chunks.push((start, len));
    chunks
}

} // verus!
