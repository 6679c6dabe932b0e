//! The two ways of working through the alignment lines.
//!
//! The line-dynamic strategy maps every line. The chunked strategy cuts the
//! lines into chunks and, within a chunk, leaves out a line that repeats the
//! line before it. As no chunk ends between two identical lines, the chunked
//! strategy maps exactly the lines that do not repeat their predecessor,
//! however many chunks there are.

use crate::chunks::{boundaries, chunk_boundaries, lemma_boundaries};
use crate::coverage::{
    accumulate, lemma_accumulate_concat, lemma_accumulate_counts, zeros, Coverage,
};
use crate::error::PackError;
use crate::graph::{graph_of, parse_gfa_file, total_length, GraphIndex};
use crate::mapper::{line_increments, parse_line};
use crate::pack::{pack_table, write_pack, PackRow};
use crate::text::texts;
use vstd::prelude::*;

verus! {

/// The coverage table after the lines have been mapped in order, each line's
/// increments being made before the next line is read; or the first reason why
/// a line or an increment is unusable.
pub open spec fn packed(counts: Seq<usize>, lines: Seq<Seq<char>>, lengths: Seq<usize>) -> Result<
    Seq<usize>,
    PackError,
>
    decreases lines.len(),
{
    if lines.len() == 0 {
        Ok(counts)
    } else {
        match packed(counts, lines.drop_last(), lengths) {
            Err(e) => Err(e),
            Ok(before) => match line_increments(lines.last(), lengths) {
                Err(e) => Err(e),
                Ok(increments) => accumulate(before, increments),
            },
        }
    }
}

/// The increments of the lines, one line after the other, or the first
/// reason why a line is unusable.
pub open spec fn all_increments(lines: Seq<Seq<char>>, lengths: Seq<usize>) -> Result<
    Seq<usize>,
    PackError,
>
    decreases lines.len(),
{
    if lines.len() == 0 {
        Ok(Seq::empty())
    } else {
        match all_increments(lines.drop_last(), lengths) {
            Err(e) => Err(e),
            Ok(before) => match line_increments(lines.last(), lengths) {
                Err(e) => Err(e),
                Ok(increments) => Ok(before + increments),
            },
        }
    }
}

/// The lines without those that repeat the line before them.
pub open spec fn without_repeats(lines: Seq<Seq<char>>) -> Seq<Seq<char>>
    decreases lines.len(),
{
    if lines.len() == 0 {
        Seq::empty()
    } else if lines.len() >= 2 && lines[lines.len() - 1] == lines[lines.len() - 2] {
        without_repeats(lines.drop_last())
    } else {
        without_repeats(lines.drop_last()).push(lines.last())
    }
}

/// Whether no line repeats the line before it.
pub open spec fn no_repeats(lines: Seq<Seq<char>>) -> bool {
    forall|k: int| 0 < k < lines.len() ==> #[trigger] lines[k] != lines[k - 1]
}

/// Lines of which none repeats the line before it lose nothing.
pub proof fn lemma_without_repeats_same(lines: Seq<Seq<char>>)
    requires
        no_repeats(lines),
    ensures
        without_repeats(lines) == lines,
    decreases lines.len(),
{
    if lines.len() > 0 {
        let front = lines.drop_last();
        assert forall|k: int| 0 < k < front.len() implies #[trigger] front[k] != front[k - 1] by {
            assert(lines[k] != lines[k - 1]);
        }
        lemma_without_repeats_same(front);
        if lines.len() >= 2 {
            assert(lines[lines.len() - 1] != lines[lines.len() - 1 - 1]);
        }
        assert(front.push(lines.last()) =~= lines);
    }
}

/// Lines cut at a place that does not lie between two identical lines lose
/// the same lines as their two parts do.
pub proof fn lemma_without_repeats_split(lines: Seq<Seq<char>>, at: int)
    requires
        0 <= at <= lines.len(),
        0 < at < lines.len() ==> lines[at] != lines[at - 1],
    ensures
        without_repeats(lines) == without_repeats(lines.take(at)) + without_repeats(
            lines.skip(at),
        ),
    decreases lines.len(),
{
    let front = lines.take(at);
    let back = lines.skip(at);
    if at == lines.len() {
        assert(front =~= lines);
        assert(back =~= Seq::<Seq<char>>::empty());
        assert(without_repeats(lines) + Seq::<Seq<char>>::empty() =~= without_repeats(lines));
    } else {
        let shorter = lines.drop_last();
        assert(shorter.take(at) =~= front);
        assert(shorter.skip(at) =~= back.drop_last());
        lemma_without_repeats_split(shorter, at);
        assert(back.last() == lines.last());
        if back.len() >= 2 {
            assert(back[back.len() - 2] == lines[lines.len() - 2]);
        }
        if lines.len() >= 2 && lines[lines.len() - 1] == lines[lines.len() - 2] {
            assert(back.len() >= 2);
        } else {
            assert(without_repeats(front) + without_repeats(back.drop_last()).push(back.last())
                =~= (without_repeats(front) + without_repeats(back.drop_last())).push(
                lines.last(),
            ));
        }
    }
}

/// A line that fails among the first `n` fails them all.
pub proof fn lemma_packed_error(
    counts: Seq<usize>,
    lines: Seq<Seq<char>>,
    lengths: Seq<usize>,
    n: int,
)
    requires
        0 <= n <= lines.len(),
        packed(counts, lines.take(n), lengths) is Err,
    ensures
        packed(counts, lines, lengths) == packed(counts, lines.take(n), lengths),
    decreases lines.len() - n,
{
    if n < lines.len() {
        assert(lines.take(n + 1).drop_last() =~= lines.take(n));
        lemma_packed_error(counts, lines, lengths, n + 1);
    } else {
        assert(lines.take(n) =~= lines);
    }
}

/// Mapping the lines of `first` and then those of `second` is mapping the
/// lines of both in that order.
pub proof fn lemma_packed_concat(
    counts: Seq<usize>,
    first: Seq<Seq<char>>,
    second: Seq<Seq<char>>,
    lengths: Seq<usize>,
)
    ensures
        packed(counts, first + second, lengths) == match packed(counts, first, lengths) {
            Ok(middle) => packed(middle, second, lengths),
            Err(e) => Err(e),
        },
    decreases second.len(),
{
    if second.len() == 0 {
        assert(first + second =~= first);
    } else {
        assert((first + second).drop_last() =~= first + second.drop_last());
        lemma_packed_concat(counts, first, second.drop_last(), lengths);
    }
}

/// Maps every line onto the graph and counts its increments.
pub fn pack_wrapper(lines: &Vec<String>, graph: &GraphIndex, coverage: Coverage) -> (r: Result<
    Coverage,
    PackError,
>)
    ensures
        match packed(coverage@, texts(lines@), graph@) {
            Ok(counts) => r is Ok && r->Ok_0@ == counts,
            Err(e) => r is Err && r->Err_0 == e,
        },
{
    let ghost all = texts(lines@);
    let ghost start = coverage@;
    let mut table = coverage;
    let mut i: usize = 0;
    proof {
        assert(all.take(0) =~= Seq::<Seq<char>>::empty());
    }
    while i < lines.len()
        invariant
            all == texts(lines@),
            start == coverage@,
            0 <= i <= lines.len(),
            packed(start, all.take(i as int), graph@) == Ok::<_, PackError>(table@),
        decreases lines.len() - i,
    {
        proof {
            assert(all.take(i + 1).drop_last() =~= all.take(i as int));
            assert(all.take(i + 1).last() == lines@[i as int]@);
        }
        let increments = match parse_line(lines[i].as_str(), graph) {
            Err(e) => {
                proof {
                    lemma_packed_error(start, all, graph@, i + 1);
                }
                return Err(e);
            },
            Ok(increments) => increments,
        };
        table = match table.add_all(&increments) {
            Err(e) => {
                proof {
                    lemma_packed_error(start, all, graph@, i + 1);
                }
                return Err(e);
            },
            Ok(table) => table,
        };
        i += 1;
    }
    proof {
        assert(all.take(i as int) =~= all);
    }
    Ok(table)
}

/// Maps the lines of one chunk, from line `start` up to line `end`, and
/// counts their increments. A line that repeats the line before it in the chunk
/// is left out.
pub fn pack_chunk(
    lines: &Vec<String>,
    start: usize,
    end: usize,
    graph: &GraphIndex,
    coverage: Coverage,
) -> (r: Result<Coverage, PackError>)
    requires
        start <= end <= lines.len(),
    ensures
        match packed(
            coverage@,
            without_repeats(texts(lines@).subrange(start as int, end as int)),
            graph@,
        ) {
            Ok(counts) => r is Ok && r->Ok_0@ == counts,
            Err(e) => r is Err && r->Err_0 == e,
        },
{
    let ghost chunk = texts(lines@).subrange(start as int, end as int);
    let ghost before = coverage@;
    let mut table = coverage;
    let mut i: usize = start;
    proof {
        assert(chunk.take(0) =~= Seq::<Seq<char>>::empty());
    }
    while i < end
        invariant
            chunk == texts(lines@).subrange(start as int, end as int),
            before == coverage@,
            start <= i <= end <= lines.len(),
            packed(before, without_repeats(chunk.take(i - start)), graph@) == Ok::<_, PackError>(
                table@,
            ),
        decreases end - i,
    {
        let ghost seen = chunk.take(i - start + 1);
        proof {
            assert(seen.drop_last() =~= chunk.take(i - start));
            assert(seen.last() == lines@[i as int]@);
            if i > start {
                assert(seen[seen.len() - 2] == lines@[i - 1]@);
            }
        }
        if i == start || lines[i] != lines[i - 1] {
            let ghost kept = without_repeats(seen);
            proof {
                assert(kept.drop_last() =~= without_repeats(chunk.take(i - start)));
            }
            let increments = match parse_line(lines[i].as_str(), graph) {
                Err(e) => {
                    proof {
                        lemma_chunk_error(before, chunk, graph@, i - start + 1);
                    }
                    return Err(e);
                },
                Ok(increments) => increments,
            };
            table = match table.add_all(&increments) {
                Err(e) => {
                    proof {
                        lemma_chunk_error(before, chunk, graph@, i - start + 1);
                    }
                    return Err(e);
                },
                Ok(table) => table,
            };
        }
        i += 1;
    }
    proof {
        assert(chunk.take(i - start) =~= chunk);
    }
    Ok(table)
}

/// A line that fails among the first `n` of a chunk fails the chunk.
proof fn lemma_chunk_error(counts: Seq<usize>, chunk: Seq<Seq<char>>, lengths: Seq<usize>, n: int)
    requires
        0 <= n <= chunk.len(),
        packed(counts, without_repeats(chunk.take(n)), lengths) is Err,
    ensures
        packed(counts, without_repeats(chunk), lengths) == packed(
            counts,
            without_repeats(chunk.take(n)),
            lengths,
        ),
    decreases chunk.len() - n,
{
    if n < chunk.len() {
        let longer = chunk.take(n + 1);
        let kept = without_repeats(chunk.take(n));
        assert(longer.drop_last() =~= chunk.take(n));
        assert(kept.push(longer.last()).drop_last() =~= kept);
        lemma_chunk_error(counts, chunk, lengths, n + 1);
    } else {
        assert(chunk.take(n) =~= chunk);
    }
}

/// The increments of the lines of one chunk, from line `start` up to line
/// `end`, in order. A line that repeats the line before it in the chunk is left
/// out.
pub fn chunk_increments(lines: &Vec<String>, start: usize, end: usize, graph: &GraphIndex) -> (r:
    Result<Vec<usize>, PackError>)
    requires
        start <= end <= lines.len(),
    ensures
        match all_increments(
            without_repeats(texts(lines@).subrange(start as int, end as int)),
            graph@,
        ) {
            Ok(increments) => r is Ok && r->Ok_0@ == increments,
            Err(e) => r is Err && r->Err_0 == e,
        },
        r is Ok ==> forall|i: int|
            0 <= i < r->Ok_0@.len() ==> #[trigger] r->Ok_0@[i] < total_length(graph@),
{
    let ghost chunk = texts(lines@).subrange(start as int, end as int);
    let mut out: Vec<usize> = Vec::new();
    let mut i: usize = start;
    proof {
        assert(chunk.take(0) =~= Seq::<Seq<char>>::empty());
    }
    while i < end
        invariant
            chunk == texts(lines@).subrange(start as int, end as int),
            start <= i <= end <= lines.len(),
            all_increments(without_repeats(chunk.take(i - start)), graph@) == Ok::<_, PackError>(
                out@,
            ),
            forall|k: int| 0 <= k < out@.len() ==> #[trigger] out@[k] < total_length(graph@),
        decreases end - i,
    {
        let ghost seen = chunk.take(i - start + 1);
        proof {
            assert(seen.drop_last() =~= chunk.take(i - start));
            assert(seen.last() == lines@[i as int]@);
            if i > start {
                assert(seen[seen.len() - 2] == lines@[i - 1]@);
            }
        }
        if i == start || lines[i] != lines[i - 1] {
            let ghost kept = without_repeats(seen);
            proof {
                assert(kept.drop_last() =~= without_repeats(chunk.take(i - start)));
            }
            let increments = match parse_line(lines[i].as_str(), graph) {
                Err(e) => {
                    proof {
                        lemma_increments_error(chunk, graph@, i - start + 1);
                    }
                    return Err(e);
                },
                Ok(increments) => increments,
            };
            let ghost before = out@;
            let mut k: usize = 0;
            while k < increments.len()
                invariant
                    0 <= k <= increments.len(),
                    out@ == before + increments@.take(k as int),
                    forall|j: int|
                        0 <= j < increments@.len() ==> #[trigger] increments@[j] < total_length(
                            graph@,
                        ),
                    forall|j: int|
                        0 <= j < out@.len() ==> #[trigger] out@[j] < total_length(graph@),
                decreases increments.len() - k,
            {
                out.push(increments[k]);
                proof {
                    assert(out@ =~= before + increments@.take(k + 1));
                }
                k += 1;
            }
            proof {
                assert(increments@.take(k as int) =~= increments@);
            }
        }
        i += 1;
    }
    proof {
        assert(chunk.take(i - start) =~= chunk);
    }
    Ok(out)
}

/// A line that fails among the first `n` of a chunk leaves the chunk without
/// increments.
proof fn lemma_increments_error(chunk: Seq<Seq<char>>, lengths: Seq<usize>, n: int)
    requires
        0 <= n <= chunk.len(),
        all_increments(without_repeats(chunk.take(n)), lengths) is Err,
    ensures
        all_increments(without_repeats(chunk), lengths) == all_increments(
            without_repeats(chunk.take(n)),
            lengths,
        ),
    decreases chunk.len() - n,
{
    if n < chunk.len() {
        let longer = chunk.take(n + 1);
        let kept = without_repeats(chunk.take(n));
        assert(longer.drop_last() =~= chunk.take(n));
        assert(kept.push(longer.last()).drop_last() =~= kept);
        lemma_increments_error(chunk, lengths, n + 1);
    } else {
        assert(chunk.take(n) =~= chunk);
    }
}

/// Counting the joined increments of lines that are all usable is mapping
/// the lines one by one.
pub proof fn lemma_packed_is_accumulated(
    counts: Seq<usize>,
    lines: Seq<Seq<char>>,
    lengths: Seq<usize>,
)
    requires
        all_increments(lines, lengths) is Ok,
    ensures
        packed(counts, lines, lengths) == accumulate(
            counts,
            all_increments(lines, lengths)->Ok_0,
        ),
    decreases lines.len(),
{
    if lines.len() > 0 {
        let front = lines.drop_last();
        lemma_packed_is_accumulated(counts, front, lengths);
        lemma_accumulate_concat(
            counts,
            all_increments(front, lengths)->Ok_0,
            line_increments(lines.last(), lengths)->Ok_0,
        );
    }
}

/// The pack table that the given lines of the alignment leave on the graph,
/// or why there is none.
pub open spec fn table_of(graph: Seq<Seq<char>>, alignment: Seq<Seq<char>>) -> Result<
    Seq<PackRow>,
    PackError,
> {
    match graph_of(graph) {
        Err(e) => Err(e),
        Ok((lengths, dense)) => match packed(
            zeros(total_length(lengths)),
            alignment,
            lengths,
        ) {
            Err(e) => Err(e),
            Ok(counts) => Ok(pack_table(lengths, counts)),
        },
    }
}

/// The line-dynamic strategy: the pack table with every line of the alignment
/// counted.
pub fn rayon_run(graph_lines: &Vec<String>, alignment_lines: &Vec<String>) -> (r: Result<
    Vec<PackRow>,
    PackError,
>)
    ensures
        match table_of(texts(graph_lines@), texts(alignment_lines@)) {
            Ok(rows) => r is Ok && r->Ok_0@ == rows,
            Err(e) => r is Err && r->Err_0 == e,
        },
{
    let graph = match parse_gfa_file(graph_lines) {
        Err(e) => {
            return Err(e);
        },
        Ok(graph) => graph,
    };
    let result = Coverage::new(graph.total_size());
    let result = match pack_wrapper(alignment_lines, &graph, result) {
        Err(e) => {
            return Err(e);
        },
        Ok(result) => result,
    };
    proof {
        lemma_packed_size(zeros(total_length(graph@)), texts(alignment_lines@), graph@);
    }
    write_pack(&graph, result.counts())
}

/// Mapping lines leaves the size of the table as it is.
pub proof fn lemma_packed_size(counts: Seq<usize>, lines: Seq<Seq<char>>, lengths: Seq<usize>)
    requires
        packed(counts, lines, lengths) is Ok,
    ensures
        packed(counts, lines, lengths)->Ok_0.len() == counts.len(),
    decreases lines.len(),
{
    if lines.len() > 0 {
        lemma_packed_size(counts, lines.drop_last(), lengths);
        lemma_accumulate_counts(
            packed(counts, lines.drop_last(), lengths)->Ok_0,
            line_increments(lines.last(), lengths)->Ok_0,
        );
    }
}

/// The chunked strategy: the pack table with every line of the alignment
/// counted that does not repeat the line before it. The lines are cut into at
/// most `threads` chunks, which are worked through one by one.
pub fn split_method(graph_lines: &Vec<String>, alignment_lines: &Vec<String>, threads: usize) -> (r:
    Result<Vec<PackRow>, PackError>)
    requires
        threads >= 1,
    ensures
        match table_of(texts(graph_lines@), without_repeats(texts(alignment_lines@))) {
            Ok(rows) => r is Ok && r->Ok_0@ == rows,
            Err(e) => r is Err && r->Err_0 == e,
        },
{
    let a = alignment_lines.len();
    let graph = match parse_gfa_file(graph_lines) {
        Err(e) => {
            return Err(e);
        },
        Ok(graph) => graph,
    };
    let ghost all = texts(alignment_lines@);
    let ghost empty = zeros(total_length(graph@));
    let ghost n = (a / threads) as nat;
    let mut result = Coverage::new(graph.total_size());
    let b = chunk_boundaries(alignment_lines, a / threads);
    proof {
        assert(boundaries(all, n).len() > 0 && boundaries(all, n)[0] == 0) by {
            lemma_boundaries(all, n);
        }
        assert(all.take(0) =~= Seq::<Seq<char>>::empty());
    }
    let mut j: usize = 0;
    while j + 1 < b.len()
        invariant
            all == texts(alignment_lines@),
            empty == zeros(total_length(graph@)),
            graph_of(texts(graph_lines@)) is Ok,
            graph_of(texts(graph_lines@))->Ok_0.0 == graph@,
            b@.len() == boundaries(all, n).len(),
            forall|i: int| 0 <= i < b@.len() ==> #[trigger] b@[i] == boundaries(all, n)[i],
            0 <= j < b.len(),
            packed(empty, without_repeats(all.take(b@[j as int] as int)), graph@) == Ok::<
                _,
                PackError,
            >(result@),
        decreases b.len() - j,
    {
        let from = b[j];
        let to = b[j + 1];
        proof {
            lemma_chunk_step(empty, all, graph@, n, j as int);
        }
        result = match pack_chunk(alignment_lines, from, to, &graph, result) {
            Err(e) => {
                return Err(e);
            },
            Ok(result) => result,
        };
        j += 1;
    }
    proof {
        assert(boundaries(all, n).last() == all.len()) by {
            lemma_boundaries(all, n);
        }
        assert(all.take(all.len() as int) =~= all);
        lemma_packed_size(empty, without_repeats(all), graph@);
    }
    write_pack(&graph, result.counts())
}

/// What chunk `j` adds: the table after the chunk is the table before it with
/// the lines of the chunk mapped, and a line that fails in the chunk fails the
/// run.
proof fn lemma_chunk_step(
    counts: Seq<usize>,
    lines: Seq<Seq<char>>,
    lengths: Seq<usize>,
    n: nat,
    j: int,
)
    requires
        0 <= j,
        j + 1 < boundaries(lines, n).len(),
    ensures
        0 <= boundaries(lines, n)[j] < boundaries(lines, n)[j + 1] <= lines.len(),
        packed(counts, without_repeats(lines.take(boundaries(lines, n)[j + 1])), lengths)
            == match packed(counts, without_repeats(lines.take(boundaries(lines, n)[j])), lengths) {
            Ok(middle) => packed(
                middle,
                without_repeats(
                    lines.subrange(boundaries(lines, n)[j], boundaries(lines, n)[j + 1]),
                ),
                lengths,
            ),
            Err(e) => Err(e),
        },
        packed(counts, without_repeats(lines.take(boundaries(lines, n)[j + 1])), lengths) is Err
            ==> packed(counts, without_repeats(lines), lengths) == packed(
            counts,
            without_repeats(lines.take(boundaries(lines, n)[j + 1])),
            lengths,
        ),
{
    lemma_boundaries(lines, n);
    let bounds = boundaries(lines, n);
    let from = bounds[j];
    let to = bounds[j + 1];
    assert(0 <= from <= lines.len());
    assert(0 <= to <= lines.len());
    assert(from < to);
    let done = lines.take(from);
    let upto = lines.take(to);
    assert(upto.take(from) =~= done);
    assert(upto.skip(from) =~= lines.subrange(from, to));
    if 0 < from {
        assert(upto[from] == lines[from]);
        assert(upto[from - 1] == lines[from - 1]);
    }
    lemma_without_repeats_split(upto, from);
    lemma_packed_concat(
        counts,
        without_repeats(done),
        without_repeats(lines.subrange(from, to)),
        lengths,
    );
    if packed(counts, without_repeats(upto), lengths) is Err {
        lemma_bounds_error(counts, lines, lengths, to);
    }
}

/// A line that fails before a chunk boundary fails the run.
proof fn lemma_bounds_error(counts: Seq<usize>, lines: Seq<Seq<char>>, lengths: Seq<usize>, at: int)
    requires
        0 <= at <= lines.len(),
        0 < at < lines.len() ==> lines[at] != lines[at - 1],
        packed(counts, without_repeats(lines.take(at)), lengths) is Err,
    ensures
        packed(counts, without_repeats(lines), lengths) == packed(
            counts,
            without_repeats(lines.take(at)),
            lengths,
        ),
{
    lemma_without_repeats_split(lines, at);
    lemma_packed_concat(
        counts,
        without_repeats(lines.take(at)),
        without_repeats(lines.skip(at)),
        lengths,
    );
}

/// How the alignment lines are worked through.
#[derive(Clone, Copy, Debug, PartialEq, Eq, Structural)]
pub enum Strategy {
    /// Every line is mapped.
    LineDynamic,
    /// The lines are cut into chunks for the given number of workers, which is
    /// at least one, and a line that repeats the line before it is left out.
    Chunked(usize),
}

/// The lines that a strategy maps.
pub open spec fn counted_lines(strategy: Strategy, alignment: Seq<Seq<char>>) -> Seq<Seq<char>> {
    match strategy {
        Strategy::LineDynamic => alignment,
        Strategy::Chunked(_) => without_repeats(alignment),
    }
}

/// The pack table of the alignment under the given strategy.
pub fn run(strategy: Strategy, graph_lines: &Vec<String>, alignment_lines: &Vec<String>) -> (r:
    Result<Vec<PackRow>, PackError>)
    requires
        strategy matches Strategy::Chunked(threads) ==> threads >= 1,
    ensures
        match table_of(
            texts(graph_lines@),
            counted_lines(strategy, texts(alignment_lines@)),
        ) {
            Ok(rows) => r is Ok && r->Ok_0@ == rows,
            Err(e) => r is Err && r->Err_0 == e,
        },
{
    match strategy {
        Strategy::LineDynamic => rayon_run(graph_lines, alignment_lines),
        Strategy::Chunked(threads) => split_method(graph_lines, alignment_lines, threads),
    }
}

/// On lines of which none repeats the line before it, and so on lines
/// without duplicates, the chunked strategy gives the pack table of the
/// line-dynamic strategy, whatever the number of workers.
pub proof fn lemma_strategies_agree(graph: Seq<Seq<char>>, alignment: Seq<Seq<char>>)
    requires
        no_repeats(alignment),
    ensures
        table_of(graph, without_repeats(alignment)) == table_of(graph, alignment),
        forall|threads: usize|
            table_of(graph, counted_lines(Strategy::Chunked(threads), alignment)) == table_of(
                graph,
                counted_lines(Strategy::LineDynamic, alignment),
            ),
{
    lemma_without_repeats_same(alignment);
}

} // verus!
