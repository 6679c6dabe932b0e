//! The graph index: node lengths in order of node id, and the global
//! coordinate at which each node begins.

use crate::error::PackError;
use crate::text::{chars_of, integer_field, parse_integer, parts, split_on, texts};
use vstd::prelude::*;
use vstd::relations::{sorted_by, total_ordering};
use vstd::seq_lib::lemma_sorted_unique;

verus! {

/// The sum of the node lengths: the size of the coordinate space.
pub open spec fn total_length(lengths: Seq<usize>) -> nat
    decreases lengths.len(),
{
    if lengths.len() == 0 {
        0
    } else {
        (total_length(lengths.drop_last()) + lengths.last()) as nat
    }
}

/// The global coordinate at which the node at position `i` of the table
/// begins: the sum of the lengths before it.
pub open spec fn offset_at(lengths: Seq<usize>, i: int) -> nat {
    total_length(lengths.take(i))
}

/// The offsets of a node length table start at zero, each node begins where
/// the one before it ends, and the last node ends at the total size.
pub proof fn lemma_offsets_chain(lengths: Seq<usize>)
    ensures
        offset_at(lengths, 0) == 0,
        forall|i: int|
            0 <= i < lengths.len() ==> #[trigger] offset_at(lengths, i + 1) == offset_at(
                lengths,
                i,
            ) + lengths[i],
        offset_at(lengths, lengths.len() as int) == total_length(lengths),
        lengths.len() > 0 ==> offset_at(lengths, lengths.len() - 1) + lengths.last()
            == total_length(lengths),
{
    assert(lengths.take(0) =~= Seq::<usize>::empty());
    assert(lengths.take(lengths.len() as int) =~= lengths);
    assert forall|i: int| 0 <= i < lengths.len() implies #[trigger] offset_at(lengths, i + 1)
        == offset_at(lengths, i) + lengths[i] by {
        assert(lengths.take(i + 1).drop_last() =~= lengths.take(i));
    }
    if lengths.len() > 0 {
        assert(lengths.take(lengths.len() - 1) =~= lengths.drop_last());
    }
}

/// No node begins beyond the total size, and nodes begin in order of position.
pub proof fn lemma_offsets_ordered(lengths: Seq<usize>, i: int, j: int)
    requires
        0 <= i <= j <= lengths.len(),
    ensures
        offset_at(lengths, i) <= offset_at(lengths, j) <= total_length(lengths),
    decreases lengths.len() - i,
{
    lemma_offsets_chain(lengths);
    if i < j {
        lemma_offsets_ordered(lengths, i + 1, j);
    } else if j < lengths.len() {
        lemma_offsets_ordered(lengths, j + 1, lengths.len() as int);
    }
}

/// The lengths of a sequence of `(node id, length)` pairs.
pub open spec fn lengths_of(pairs: Seq<(usize, usize)>) -> Seq<usize> {
    Seq::new(pairs.len(), |i: int| pairs[i].1)
}

/// The lengths of the `(node id, length)` pairs.
fn lengths_in(pairs: &Vec<(usize, usize)>) -> (lengths: Vec<usize>)
    ensures
        lengths@ == lengths_of(pairs@),
{
    let mut lengths: Vec<usize> = Vec::new();
    let mut k: usize = 0;
    while k < pairs.len()
        invariant
            0 <= k <= pairs.len(),
            lengths@ == lengths_of(pairs@).take(k as int),
        decreases pairs.len() - k,
    {
        lengths.push(pairs[k].1);
        assert(lengths@ =~= lengths_of(pairs@).take(k + 1));
        k += 1;
    }
    assert(lengths@ =~= lengths_of(pairs@));
    lengths
}

/// The global offset of every node and the total size of a node length
/// table, or `None` if the total size does not fit in a `usize`.
fn change_points(lengths: &Vec<usize>) -> (r: Option<(Vec<usize>, usize)>)
    ensures
        r is None <==> total_length(lengths@) > usize::MAX,
        r matches Some((index, total)) ==> {
            &&& index@.len() == lengths@.len()
            &&& forall|i: int|
                0 <= i < index@.len() ==> #[trigger] index@[i] == offset_at(lengths@, i)
            &&& total == total_length(lengths@)
        },
{
    let mut change_points: Vec<usize> = Vec::new();
    let mut c: usize = 0;
    let mut i: usize = 0;
    proof {
        lemma_offsets_chain(lengths@);
    }
    while i < lengths.len()
        invariant
            0 <= i <= lengths.len(),
            change_points@.len() == i,
            c == offset_at(lengths@, i as int),
            forall|k: int| 0 <= k < i ==> #[trigger] change_points@[k] == offset_at(lengths@, k),
        decreases lengths.len() - i,
    {
        proof {
            lemma_offsets_chain(lengths@);
            lemma_offsets_ordered(lengths@, i + 1, lengths@.len() as int);
        }
        change_points.push(c);
        let length = lengths[i];
        if length > usize::MAX - c {
            return None;
        }
        c = c + length;
        i += 1;
    }
    proof {
        lemma_offsets_chain(lengths@);
    }
    Some((change_points, c))
}

/// Computes the global offset of every node and the total size from the
/// `(node id, length)` pairs in order of node id. Returns `None` if the total
/// size does not fit in a `usize`.
pub fn find_change_points(sorted: &Vec<(usize, usize)>) -> (r: Option<(Vec<usize>, usize)>)
    ensures
        r is None <==> total_length(lengths_of(sorted@)) > usize::MAX,
        r matches Some((index, total)) ==> {
            &&& index@.len() == sorted@.len()
            &&& forall|i: int|
                0 <= i < index@.len() ==> #[trigger] index@[i] == offset_at(
                    lengths_of(sorted@),
                    i,
                )
            &&& total == total_length(lengths_of(sorted@))
            &&& index@.len() > 0 ==> index@[0] == 0
            &&& forall|i: int|
                0 <= i < index@.len() - 1 ==> #[trigger] index@[i + 1] == index@[i]
                    + sorted@[i].1
            &&& index@.len() > 0 ==> index@[index@.len() - 1] + sorted@[sorted@.len() - 1].1
                == total
        },
{
    let lengths = lengths_in(sorted);
    proof {
        lemma_offsets_chain(lengths@);
    }
    change_points(&lengths)
}

/// The order of `(node id, length)` pairs: by node id, then by length.
pub open spec fn pair_order() -> spec_fn((usize, usize), (usize, usize)) -> bool {
    |a: (usize, usize), b: (usize, usize)| a.0 < b.0 || (a.0 == b.0 && a.1 <= b.1)
}

/// `slice::sort` on pairs of integers: afterwards the vector holds the same
/// pairs as before, each as often as before, in ascending order.
#[verifier::external_body]
fn sort_pairs(pairs: &mut Vec<(usize, usize)>)
    ensures
        sorted_by(final(pairs)@, pair_order()),
        final(pairs)@.to_multiset() == old(pairs)@.to_multiset(),
{
    pairs.sort();
}

/// What a line of the graph says: nothing if it is no segment record, else
/// the node id and the length of the sequence, or why the record is unusable.
pub open spec fn segment_of(line: Seq<char>) -> Option<Result<(usize, usize), PackError>> {
    if line.len() > 0 && line[0] == 'S' {
        let fields = parts(line, '\t');
        if fields.len() < 3 {
            Some(Err(PackError::ShortSegment))
        } else {
            match integer_field(fields[1]) {
                Some(id) => if id > 0 {
                    Some(Ok((id, fields[2].len() as usize)))
                } else {
                    Some(Err(PackError::InvalidNodeId))
                },
                None => Some(Err(PackError::InvalidNodeId)),
            }
        }
    } else {
        None
    }
}

/// Reads one line of the graph.
pub fn parse_segment(line: &str) -> (r: Option<Result<(usize, usize), PackError>>)
    ensures
        r == segment_of(line@),
{
    let chars = chars_of(line);
    if chars.len() == 0 || chars[0] != 'S' {
        return None;
    }
    let fields = split_on(&chars, '\t');
    if fields.len() < 3 {
        return Some(Err(PackError::ShortSegment));
    }
    match parse_integer(&fields[1]) {
        Some(id) => if id > 0 {
            Some(Ok((id, fields[2].len())))
        } else {
            Some(Err(PackError::InvalidNodeId))
        },
        None => Some(Err(PackError::InvalidNodeId)),
    }
}

/// The segment records of a graph in the order of the lines, or the first
/// reason why a line is unusable.
pub open spec fn segments(lines: Seq<Seq<char>>) -> Result<Seq<(usize, usize)>, PackError>
    decreases lines.len(),
{
    if lines.len() == 0 {
        Ok(Seq::empty())
    } else {
        match segments(lines.drop_last()) {
            Err(e) => Err(e),
            Ok(before) => match segment_of(lines.last()) {
                None => Ok(before),
                Some(Err(e)) => Err(e),
                Some(Ok(pair)) => Ok(before.push(pair)),
            },
        }
    }
}

/// Whether the node ids, in ascending order, are exactly 1, 2, 3 and so on.
pub open spec fn ids_dense(sorted: Seq<(usize, usize)>) -> bool {
    forall|i: int| 0 <= i < sorted.len() ==> (#[trigger] sorted[i]).0 == i + 1
}

/// What a graph amounts to: the node length table in ascending order of node
/// id and whether the ids are dense, or why the graph is unusable.
pub open spec fn graph_of(lines: Seq<Seq<char>>) -> Result<(Seq<usize>, bool), PackError> {
    match segments(lines) {
        Err(e) => Err(e),
        Ok(pairs) => {
            let sorted = pairs.sort_by(pair_order());
            if pairs.len() == 0 {
                Err(PackError::EmptyGraph)
            } else if total_length(lengths_of(sorted)) > usize::MAX {
                Err(PackError::GraphTooLarge)
            } else {
                Ok((lengths_of(sorted), ids_dense(sorted)))
            }
        },
    }
}

/// The node length table of a graph with the global offset index over it.
///
/// The table is never empty. The node with id `n` stands at position `n - 1`.
#[derive(Debug)]
pub struct GraphIndex {
    lengths: Vec<usize>,
    offsets: Vec<usize>,
    total: usize,
    dense: bool,
}

impl View for GraphIndex {
    type V = Seq<usize>;

    /// The node length table.
    closed spec fn view(&self) -> Seq<usize> {
        self.lengths@
    }
}

impl GraphIndex {
    #[verifier::type_invariant]
    spec fn valid(self) -> bool {
        &&& self.lengths@.len() > 0
        &&& self.offsets@.len() == self.lengths@.len()
        &&& forall|i: int|
            0 <= i < self.offsets@.len() ==> #[trigger] self.offsets@[i] == offset_at(
                self.lengths@,
                i,
            )
        &&& self.total == total_length(self.lengths@)
    }

    /// Whether the node ids of the graph were exactly 1, 2, 3 and so on.
    pub closed spec fn is_dense(&self) -> bool {
        self.dense
    }

    /// The index over the given node length table, which holds the length of
    /// node `n` at position `n - 1`. The table must not be empty, and the lengths
    /// must add up to what a `usize` holds.
    pub fn new(lengths: Vec<usize>) -> (r: Result<GraphIndex, PackError>)
        ensures
            lengths@.len() == 0 ==> r is Err && r->Err_0 == PackError::EmptyGraph,
            lengths@.len() > 0 && total_length(lengths@) > usize::MAX ==> r is Err && r->Err_0
                == PackError::GraphTooLarge,
            lengths@.len() > 0 && total_length(lengths@) <= usize::MAX ==> r is Ok && r->Ok_0@
                == lengths@ && r->Ok_0.is_dense(),
    {
        GraphIndex::with_ids(lengths, true)
    }

    fn with_ids(lengths: Vec<usize>, dense: bool) -> (r: Result<GraphIndex, PackError>)
        ensures
            lengths@.len() == 0 ==> r is Err && r->Err_0 == PackError::EmptyGraph,
            lengths@.len() > 0 && total_length(lengths@) > usize::MAX ==> r is Err && r->Err_0
                == PackError::GraphTooLarge,
            lengths@.len() > 0 && total_length(lengths@) <= usize::MAX ==> r is Ok && r->Ok_0@
                == lengths@ && r->Ok_0.is_dense() == dense,
    {
        if lengths.len() == 0 {
            return Err(PackError::EmptyGraph);
        }
        match change_points(&lengths) {
            None => Err(PackError::GraphTooLarge),
            Some((offsets, total)) => Ok(GraphIndex { lengths, offsets, total, dense }),
        }
    }

    /// The node length table: the length of node `n` at position `n - 1`.
    pub fn lengths(&self) -> (r: &Vec<usize>)
        ensures
            r@ == self@,
            r@.len() > 0,
            total_length(r@) <= usize::MAX,
    {
        proof {
            use_type_invariant(self);
        }
        &self.lengths
    }

    /// The global offset index: where node `n` begins, at position `n - 1`.
    pub fn offsets(&self) -> (r: &Vec<usize>)
        ensures
            r@.len() == self@.len(),
            forall|i: int| 0 <= i < r@.len() ==> #[trigger] r@[i] == offset_at(self@, i),
    {
        proof {
            use_type_invariant(self);
        }
        &self.offsets
    }

    /// The size of the coordinate space.
    pub fn total_size(&self) -> (r: usize)
        ensures
            r == total_length(self@),
    {
        proof {
            use_type_invariant(self);
        }
        self.total
    }

    /// Whether the node ids of the graph were exactly 1, 2, 3 and so on.
    pub fn dense(&self) -> (r: bool)
        ensures
            r == self.is_dense(),
    {
        self.dense
    }
}

/// The order of pairs is a total order.
pub proof fn lemma_pair_order_total()
    ensures
        total_ordering(pair_order()),
{
}

/// The segment records in order are the same records, each as often as among
/// the lines, by ascending node id; records of one id follow each other by
/// ascending length. There is one such sequence only.
pub proof fn lemma_sorted_segments(pairs: Seq<(usize, usize)>)
    ensures
        sorted_by(pairs.sort_by(pair_order()), pair_order()),
        pairs.sort_by(pair_order()).to_multiset() == pairs.to_multiset(),
        pairs.sort_by(pair_order()).len() == pairs.len(),
        forall|other: Seq<(usize, usize)>|
            sorted_by(other, pair_order()) && other.to_multiset() == pairs.to_multiset()
                ==> other == pairs.sort_by(pair_order()),
{
    lemma_pair_order_total();
    pairs.lemma_sort_by_ensures(pair_order());
    pairs.to_multiset_ensures();
    pairs.sort_by(pair_order()).to_multiset_ensures();
    assert forall|other: Seq<(usize, usize)>|
        sorted_by(other, pair_order()) && other.to_multiset() == pairs.to_multiset() implies other
        == pairs.sort_by(pair_order()) by {
        lemma_sorted_unique(other, pairs.sort_by(pair_order()), pair_order());
    }
}

/// Builds the graph index from the lines of a graph.
pub fn parse_gfa_file(lines: &Vec<String>) -> (r: Result<GraphIndex, PackError>)
    ensures
        match graph_of(texts(lines@)) {
            Ok((lengths, dense)) => r is Ok && r->Ok_0@ == lengths && r->Ok_0.is_dense()
                == dense,
            Err(e) => r is Err && r->Err_0 == e,
        },
{
    let ghost all = texts(lines@);
    let mut nodes: Vec<(usize, usize)> = Vec::new();
    let mut i: usize = 0;
    while i < lines.len()
        invariant
            all == texts(lines@),
            0 <= i <= lines.len(),
            segments(all.take(i as int)) == Ok::<_, PackError>(nodes@),
        decreases lines.len() - i,
    {
        proof {
            assert(all.take(i + 1).drop_last() =~= all.take(i as int));
            assert(all.take(i + 1).last() == lines@[i as int]@);
        }
        match parse_segment(lines[i].as_str()) {
            None => {},
            Some(Err(e)) => {
                proof {
                    lemma_segments_error(all, i + 1);
                }
                return Err(e);
            },
            Some(Ok(pair)) => {
                nodes.push(pair);
            },
        }
        i += 1;
    }
    proof {
        assert(all.take(i as int) =~= all);
    }
    if nodes.len() == 0 {
        return Err(PackError::EmptyGraph);
    }
    let ghost unsorted = nodes@;
    sort_pairs(&mut nodes);
    proof {
        lemma_sorted_segments(unsorted);
    }
    let dense = check_dense(&nodes);
    GraphIndex::with_ids(lengths_in(&nodes), dense)
}

/// An error among the first `n` lines is the error of the whole graph.
proof fn lemma_segments_error(lines: Seq<Seq<char>>, n: int)
    requires
        0 <= n <= lines.len(),
        segments(lines.take(n)) is Err,
    ensures
        segments(lines) == segments(lines.take(n)),
    decreases lines.len() - n,
{
    if n < lines.len() {
        assert(lines.take(n + 1).drop_last() =~= lines.take(n));
        lemma_segments_error(lines, n + 1);
    } else {
        assert(lines.take(n) =~= lines);
    }
}

/// Whether the ids of the sorted pairs are 1, 2, 3 and so on.
fn check_dense(sorted: &Vec<(usize, usize)>) -> (r: bool)
    ensures
        r == ids_dense(sorted@),
{
    let mut i: usize = 0;
    while i < sorted.len()
        invariant
            0 <= i <= sorted.len(),
            forall|k: int| 0 <= k < i ==> (#[trigger] sorted@[k]).0 == k + 1,
        decreases sorted.len() - i,
    {
        if sorted[i].0 != i + 1 {
            return false;
        }
        i += 1;
    }
    true
}

} // verus!
