//! Cutting the alignment lines into chunks for the workers.
//!
//! A chunk ends only where two neighbouring lines differ, so a run of
//! identical lines always lies within one chunk.

use crate::error::PackError;
use crate::text::texts;
use vstd::prelude::*;
use vstd::utf8::encode_utf8;

verus! {

/// The first place at or after `from` where a chunk may end: the end of the
/// lines, or a line that differs from the line before it.
pub open spec fn chunk_end(lines: Seq<Seq<char>>, from: int) -> int
    decreases lines.len() - from,
{
    if from >= lines.len() {
        lines.len() as int
    } else if from > 0 && lines[from] == lines[from - 1] {
        chunk_end(lines, from + 1)
    } else {
        from
    }
}

/// A chunk that may end at or after `from` ends there or later, within the
/// lines, and not between two identical lines.
pub proof fn lemma_chunk_end(lines: Seq<Seq<char>>, from: int)
    requires
        0 < from,
    ensures
        chunk_end(lines, from) <= lines.len(),
        from <= lines.len() ==> from <= chunk_end(lines, from),
        from > lines.len() ==> chunk_end(lines, from) == lines.len(),
        chunk_end(lines, from) < lines.len() ==> lines[chunk_end(lines, from)]
            != lines[chunk_end(lines, from) - 1],
    decreases lines.len() - from,
{
    if from < lines.len() && lines[from] == lines[from - 1] {
        lemma_chunk_end(lines, from + 1);
    }
}

/// A place before which every line from `from` on repeats the line before
/// it, and which is the end of the lines or a line that differs from the line
/// before it, is where the chunk ends.
pub proof fn lemma_chunk_end_is(lines: Seq<Seq<char>>, from: int, end: int)
    requires
        0 < from <= end <= lines.len(),
        forall|k: int| from <= k < end ==> #[trigger] lines[k] == lines[k - 1],
        end < lines.len() ==> lines[end] != lines[end - 1],
    ensures
        chunk_end(lines, from) == end,
    decreases end - from,
{
    if from < end {
        assert(lines[from] == lines[from - 1]);
        lemma_chunk_end_is(lines, from + 1, end);
    }
}

/// The ends of the chunks from the chunk that begins at line `start`: each
/// chunk takes more than `n` lines where so many are left, and goes on to the
/// first place where a chunk may end.
pub open spec fn boundaries_from(lines: Seq<Seq<char>>, start: int, n: nat) -> Seq<int>
    decreases lines.len() - start,
{
    if 0 <= start < lines.len() {
        proof {
            lemma_chunk_end(lines, start + n + 1);
        }
        seq![chunk_end(lines, start + n + 1)] + boundaries_from(
            lines,
            chunk_end(lines, start + n + 1),
            n,
        )
    } else {
        Seq::empty()
    }
}

/// The chunk boundaries as line numbers: zero, then the end of every chunk.
/// Chunk `j` holds the lines from boundary `j` up to boundary `j + 1`.
pub open spec fn boundaries(lines: Seq<Seq<char>>, n: nat) -> Seq<int> {
    seq![0int] + boundaries_from(lines, 0, n)
}

/// The chunk ends after `start` ascend to the number of lines, and none of
/// them falls between two identical lines.
pub proof fn lemma_boundaries_from(lines: Seq<Seq<char>>, start: int, n: nat)
    requires
        0 <= start <= lines.len(),
    ensures
        forall|j: int|
            0 <= j < boundaries_from(lines, start, n).len() ==> start < #[trigger] boundaries_from(
                lines,
                start,
                n,
            )[j] <= lines.len(),
        forall|i: int, j: int|
            0 <= i < j < boundaries_from(lines, start, n).len() ==> #[trigger] boundaries_from(
                lines,
                start,
                n,
            )[i] < #[trigger] boundaries_from(lines, start, n)[j],
        forall|j: int|
            0 <= j < boundaries_from(lines, start, n).len() && #[trigger] boundaries_from(
                lines,
                start,
                n,
            )[j] < lines.len() ==> lines[boundaries_from(lines, start, n)[j]]
                != lines[boundaries_from(lines, start, n)[j] - 1],
        start < lines.len() ==> boundaries_from(lines, start, n).len() > 0 && boundaries_from(
            lines,
            start,
            n,
        ).last() == lines.len(),
    decreases lines.len() - start,
{
    if start < lines.len() {
        let end = chunk_end(lines, start + n + 1);
        lemma_chunk_end(lines, start + n + 1);
        lemma_boundaries_from(lines, end, n);
        let rest = boundaries_from(lines, end, n);
        let all = boundaries_from(lines, start, n);
        assert(all == seq![end] + rest);
        assert forall|j: int| 0 <= j < all.len() implies start < #[trigger] all[j]
            <= lines.len() by {
            if j > 0 {
                assert(all[j] == rest[j - 1]);
            }
        }
        assert forall|i: int, j: int| 0 <= i < j < all.len() implies #[trigger] all[i]
            < #[trigger] all[j] by {
            assert(all[j] == rest[j - 1]);
            if i > 0 {
                assert(all[i] == rest[i - 1]);
            }
        }
        assert forall|j: int|
            0 <= j < all.len() && #[trigger] all[j] < lines.len() implies lines[all[j]]
            != lines[all[j] - 1] by {
            if j > 0 {
                assert(all[j] == rest[j - 1]);
            }
        }
        if end < lines.len() {
            assert(all.last() == rest.last());
        }
    }
}

/// The chunk boundaries begin at zero, ascend to the number of lines, and
/// none of them falls between two identical lines.
pub proof fn lemma_boundaries(lines: Seq<Seq<char>>, n: nat)
    ensures
        boundaries(lines, n).len() > 0,
        boundaries(lines, n)[0] == 0,
        boundaries(lines, n).last() == lines.len(),
        forall|j: int|
            0 <= j < boundaries(lines, n).len() ==> 0 <= #[trigger] boundaries(lines, n)[j]
                <= lines.len(),
        forall|i: int, j: int|
            0 <= i < j < boundaries(lines, n).len() ==> #[trigger] boundaries(lines, n)[i]
                < #[trigger] boundaries(lines, n)[j],
        forall|j: int|
            0 <= j < boundaries(lines, n).len() && 0 < #[trigger] boundaries(lines, n)[j]
                < lines.len() ==> lines[boundaries(lines, n)[j]] != lines[boundaries(
                lines,
                n,
            )[j] - 1],
{
    lemma_boundaries_from(lines, 0, n);
    let rest = boundaries_from(lines, 0, n);
    let all = boundaries(lines, n);
    assert forall|j: int| 0 <= j < all.len() implies 0 <= #[trigger] all[j] <= lines.len() by {
        if j > 0 {
            assert(all[j] == rest[j - 1]);
        }
    }
    assert forall|i: int, j: int| 0 <= i < j < all.len() implies #[trigger] all[i]
        < #[trigger] all[j] by {
        assert(all[j] == rest[j - 1]);
        if i > 0 {
            assert(all[i] == rest[i - 1]);
        }
    }
    assert forall|j: int|
        0 <= j < all.len() && 0 < #[trigger] all[j] < lines.len() implies lines[all[j]]
        != lines[all[j] - 1] by {
        assert(all[j] == rest[j - 1]);
    }
    if lines.len() > 0 {
        assert(all.last() == rest.last());
    }
}

/// From line `start` on there are no more chunks than the lines left can fill
/// with more than `n` lines each, the last chunk taking what is left.
pub proof fn lemma_chunks_from(lines: Seq<Seq<char>>, start: int, n: nat)
    requires
        0 <= start <= lines.len(),
    ensures
        boundaries_from(lines, start, n).len() * (n + 1) <= lines.len() - start + n,
    decreases lines.len() - start,
{
    let count = boundaries_from(lines, start, n).len() as int;
    if start < lines.len() {
        let end = chunk_end(lines, start + n + 1);
        lemma_chunk_end(lines, start + n + 1);
        lemma_chunks_from(lines, end, n);
        let rest = boundaries_from(lines, end, n).len() as int;
        assert(count == rest + 1);
        assert((rest + 1) * (n + 1) == rest * (n + 1) + (n + 1)) by (nonlinear_arith);
        if end == lines.len() {
            assert(rest == 0);
            assert(0 * (n + 1) == 0) by (nonlinear_arith);
        }
    } else {
        assert(count == 0);
        assert(0 * (n + 1) == 0) by (nonlinear_arith);
    }
}

/// Lines cut for `threads` workers, into chunks of more than the number of
/// lines divided by `threads`, make at most `threads` chunks.
pub proof fn lemma_chunk_count(lines: Seq<Seq<char>>, threads: nat)
    requires
        threads >= 1,
    ensures
        boundaries(lines, lines.len() / threads).len() <= threads + 1,
{
    let n = lines.len() / threads;
    let chunks = boundaries_from(lines, 0, n).len();
    lemma_chunks_from(lines, 0, n);
    assert(chunks * (n + 1) <= lines.len() + n);
    assert(lines.len() < (n + 1) * threads) by (nonlinear_arith)
        requires
            threads >= 1,
            n == lines.len() / threads,
    ;
    if chunks > threads {
        assert(chunks * (n + 1) >= (threads + 1) * (n + 1)) by (nonlinear_arith)
            requires
                chunks >= threads + 1,
        ;
        assert((threads + 1) * (n + 1) == (n + 1) * threads + (n + 1)) by (nonlinear_arith);
        assert(false);
    }
}

/// Cuts the lines into chunks of more than `n` lines each, as far as there
/// are so many, and returns the chunk boundaries as line numbers.
pub fn chunk_boundaries(lines: &Vec<String>, n: usize) -> (r: Vec<usize>)
    ensures
        r@.len() == boundaries(texts(lines@), n as nat).len(),
        forall|j: int| 0 <= j < r@.len() ==> #[trigger] r@[j] == boundaries(
            texts(lines@),
            n as nat,
        )[j],
{
    let ghost all = texts(lines@);
    let mut vv: Vec<usize> = Vec::new();
    vv.push(0);
    let mut start: usize = 0;
    let mut k: usize = 0;
    let ghost mut done: Seq<int> = seq![0int];
    while k < lines.len()
        invariant
            all == texts(lines@),
            0 <= start <= k <= lines.len(),
            k == lines.len() ==> start == lines.len(),
            forall|e: int|
                start + n + 1 <= e <= k ==> e < lines.len() && #[trigger] all[e] == all[e - 1],
            boundaries(all, n as nat) == done + boundaries_from(all, start as int, n as nat),
            vv@.len() == done.len(),
            forall|j: int| 0 <= j < vv@.len() ==> #[trigger] vv@[j] == done[j],
        decreases lines.len() - k,
    {
        k += 1;
        let close = if k == lines.len() {
            true
        } else {
            k - start > n && lines[k] != lines[k - 1]
        };
        if close {
            proof {
                let from = start + n + 1;
                if from < k {
                    lemma_chunk_end_is(all, from, k as int);
                } else if from > k {
                    lemma_chunk_end(all, from);
                }
                let rest = boundaries_from(all, k as int, n as nat);
                assert(boundaries_from(all, start as int, n as nat) == seq![k as int] + rest);
                assert(done + (seq![k as int] + rest) =~= done.push(k as int) + rest);
                done = done.push(k as int);
            }
            vv.push(k);
            start = k;
        }
    }
    proof {
        assert(boundaries_from(all, start as int, n as nat) =~= Seq::<int>::empty());
        assert(done + Seq::<int>::empty() =~= done);
    }
    vv
}

/// The bytes that a line takes in the file: its UTF-8 encoding and one line
/// break.
pub open spec fn line_bytes(line: Seq<char>) -> nat {
    encode_utf8(line).len() + 1
}

/// The byte offset at which line `k` begins.
pub open spec fn byte_offset(lines: Seq<Seq<char>>, k: int) -> nat
    decreases k,
{
    if k <= 0 {
        0
    } else {
        byte_offset(lines, k - 1) + line_bytes(lines[k - 1])
    }
}

/// Later lines begin at higher offsets.
pub proof fn lemma_byte_offset_ordered(lines: Seq<Seq<char>>, i: int, j: int)
    requires
        0 <= i <= j,
    ensures
        byte_offset(lines, i) <= byte_offset(lines, j),
    decreases j - i,
{
    if i < j {
        lemma_byte_offset_ordered(lines, i, j - 1);
    }
}

/// The chunk boundaries as byte offsets into the file, for chunks of more than
/// `n` lines each. Fails if the file is longer than a `u64` can say.
pub fn nth_newline_position(lines: &Vec<String>, n: usize) -> (r: Result<Vec<u64>, PackError>)
    ensures
        byte_offset(texts(lines@), lines@.len() as int) <= u64::MAX ==> r is Ok && r->Ok_0@.len()
            == boundaries(texts(lines@), n as nat).len() && forall|j: int|
            0 <= j < r->Ok_0@.len() ==> #[trigger] r->Ok_0@[j] == byte_offset(
                texts(lines@),
                boundaries(texts(lines@), n as nat)[j],
            ),
        byte_offset(texts(lines@), lines@.len() as int) > u64::MAX ==> r is Err && r->Err_0
            == PackError::OffsetOverflow,
{
    let ghost all = texts(lines@);
    let marks = chunk_boundaries(lines, n);
    let ghost bounds = boundaries(all, n as nat);
    proof {
        lemma_boundaries(all, n as nat);
    }
    let mut vv: Vec<u64> = Vec::new();
    let mut bytes: u64 = 0;
    let mut j: usize = 0;
    let mut k: usize = 0;
    loop
        invariant
            all == texts(lines@),
            bounds == boundaries(all, n as nat),
            marks@.len() == bounds.len(),
            forall|i: int| 0 <= i < marks@.len() ==> #[trigger] marks@[i] == bounds[i],
            forall|i: int| 0 <= i < bounds.len() ==> 0 <= #[trigger] bounds[i] <= lines.len(),
            forall|a: int, b: int|
                0 <= a < b < bounds.len() ==> #[trigger] bounds[a] < #[trigger] bounds[b],
            0 <= k <= lines.len(),
            0 <= j <= marks.len(),
            bytes == byte_offset(all, k as int),
            forall|i: int| 0 <= i < j ==> #[trigger] bounds[i] < k,
            forall|i: int| j <= i < bounds.len() ==> #[trigger] bounds[i] >= k,
            vv@.len() == j,
            forall|i: int| 0 <= i < j ==> #[trigger] vv@[i] == byte_offset(all, bounds[i]),
        decreases lines.len() - k,
    {
        if j < marks.len() && marks[j] == k {
            vv.push(bytes);
            proof {
                assert forall|i: int| j + 1 <= i < bounds.len() implies #[trigger] bounds[i]
                    >= k + 1 by {
                    assert(bounds[j as int] < bounds[i]);
                }
            }
            j += 1;
        }
        if k >= lines.len() {
            proof {
                if j < marks.len() {
                    assert(bounds[j as int] >= k);
                    assert(bounds[j as int] <= lines.len());
                    assert(false);
                }
            }
            return Ok(vv);
        }
        let length = lines[k].as_str().as_bytes().len();
        proof {
            assert(all[k as int] == lines@[k as int]@);
            lemma_byte_offset_ordered(all, k + 1, lines@.len() as int);
        }
        if length as u64 >= u64::MAX - bytes {
            return Err(PackError::OffsetOverflow);
        }
        bytes = bytes + (length as u64 + 1);
        k += 1;
    }
}

} // verus!
