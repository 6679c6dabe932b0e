//! The pack table: one row for every global coordinate, with the node that
//! owns it, the offset within that node and the coverage counted there.

use crate::error::PackError;
use crate::graph::{lemma_offsets_chain, lemma_offsets_ordered, offset_at, total_length, GraphIndex};
use crate::text::{decimal_digits, push_char, push_decimal};
use vstd::prelude::*;

verus! {

/// A row of the pack table.
#[derive(Clone, Copy, Debug, PartialEq, Eq, Structural)]
pub struct PackRow {
    /// The global coordinate, counted from zero.
    pub seq_pos: usize,
    /// The node that owns the coordinate, counted from one.
    pub node_id: usize,
    /// The offset of the coordinate within its node, counted from zero.
    pub node_offset: usize,
    /// The number of alignment records that match at the coordinate.
    pub coverage: usize,
}

/// The rows of the node with id `node`, in ascending order of offset.
pub open spec fn node_rows(lengths: Seq<usize>, counts: Seq<usize>, node: int) -> Seq<PackRow> {
    Seq::new(
        lengths[node - 1] as nat,
        |x: int|
            PackRow {
                seq_pos: (offset_at(lengths, node - 1) + x) as usize,
                node_id: node as usize,
                node_offset: x as usize,
                coverage: counts[offset_at(lengths, node - 1) + x],
            },
    )
}

/// The rows of the first `nodes` nodes, node after node.
pub open spec fn rows_upto(lengths: Seq<usize>, counts: Seq<usize>, nodes: int) -> Seq<PackRow>
    decreases nodes,
{
    if nodes <= 0 {
        Seq::empty()
    } else {
        rows_upto(lengths, counts, nodes - 1) + node_rows(lengths, counts, nodes)
    }
}

/// The pack table of a graph with the given node lengths and coverage.
pub open spec fn pack_table(lengths: Seq<usize>, counts: Seq<usize>) -> Seq<PackRow> {
    rows_upto(lengths, counts, lengths.len() as int)
}

/// The rows of the first `nodes` nodes are the rows of the coordinates below
/// the offset of the node that follows them, row `p` being that of coordinate
/// `p`, which lies in the node and at the offset that the row names.
pub proof fn lemma_rows_upto(lengths: Seq<usize>, counts: Seq<usize>, nodes: int)
    requires
        0 <= nodes <= lengths.len() <= usize::MAX,
        total_length(lengths) <= usize::MAX,
    ensures
        rows_upto(lengths, counts, nodes).len() == offset_at(lengths, nodes),
        forall|p: int|
            0 <= p < rows_upto(lengths, counts, nodes).len() ==> {
                let row = #[trigger] rows_upto(lengths, counts, nodes)[p];
                &&& row.seq_pos == p
                &&& row.coverage == counts[p]
                &&& 1 <= row.node_id <= nodes
                &&& row.node_offset < lengths[row.node_id - 1]
                &&& offset_at(lengths, row.node_id - 1) + row.node_offset == p
            },
    decreases nodes,
{
    lemma_offsets_chain(lengths);
    if nodes > 0 {
        lemma_rows_upto(lengths, counts, nodes - 1);
        lemma_offsets_ordered(lengths, nodes, lengths.len() as int);
        let before = nodes - 1;
        assert(offset_at(lengths, before + 1) == offset_at(lengths, before) + lengths[before]);
        let earlier = rows_upto(lengths, counts, before);
        let run = node_rows(lengths, counts, nodes);
        assert forall|p: int| 0 <= p < rows_upto(lengths, counts, nodes).len() implies {
            let row = #[trigger] rows_upto(lengths, counts, nodes)[p];
            &&& row.seq_pos == p
            &&& row.coverage == counts[p]
            &&& 1 <= row.node_id <= nodes
            &&& row.node_offset < lengths[row.node_id - 1]
            &&& offset_at(lengths, row.node_id - 1) + row.node_offset == p
        } by {
            if p < earlier.len() {
                assert(rows_upto(lengths, counts, nodes)[p] == earlier[p]);
            } else {
                let x = p - earlier.len();
                assert(earlier.len() == offset_at(lengths, before));
                assert(0 <= x < lengths[before]);
                assert(rows_upto(lengths, counts, nodes)[p] == run[x]);
                assert(run[x].node_id == nodes);
                assert(run[x].node_offset == x);
                assert(run[x].seq_pos == p);
            }
        }
    }
}

/// The pack table has one row for every global coordinate, in ascending
/// order: row `p` is that of coordinate `p`, names the node that owns it and
/// the offset in that node, and holds the coverage counted at `p`.
pub proof fn lemma_pack_table(lengths: Seq<usize>, counts: Seq<usize>)
    requires
        lengths.len() <= usize::MAX,
        total_length(lengths) <= usize::MAX,
    ensures
        pack_table(lengths, counts).len() == total_length(lengths),
        forall|p: int|
            0 <= p < pack_table(lengths, counts).len() ==> {
                let row = #[trigger] pack_table(lengths, counts)[p];
                &&& row.seq_pos == p
                &&& row.coverage == counts[p]
                &&& 1 <= row.node_id <= lengths.len()
                &&& row.node_offset < lengths[row.node_id - 1]
                &&& offset_at(lengths, row.node_id - 1) + row.node_offset == p
            },
{
    lemma_rows_upto(lengths, counts, lengths.len() as int);
    lemma_offsets_chain(lengths);
}

/// Lists the rows of the pack table. The coverage table has to be of the size
/// of the coordinate space.
pub fn write_pack(graph: &GraphIndex, counts: &Vec<usize>) -> (r: Result<Vec<PackRow>, PackError>)
    ensures
        counts@.len() == total_length(graph@) ==> r is Ok && r->Ok_0@ == pack_table(
            graph@,
            counts@,
        ),
        counts@.len() != total_length(graph@) ==> r is Err && r->Err_0
            == PackError::TableSizeMismatch,
{
    if counts.len() != graph.total_size() {
        return Err(PackError::TableSizeMismatch);
    }
    let nodes = graph.lengths();
    let ghost lengths = graph@;
    let mut rows: Vec<PackRow> = Vec::new();
    let mut c: usize = 0;
    let mut i: usize = 0;
    proof {
        lemma_offsets_chain(lengths);
    }
    while i < nodes.len()
        invariant
            lengths == graph@,
            nodes@ == lengths,
            total_length(lengths) <= usize::MAX,
            counts@.len() == total_length(lengths),
            0 <= i <= nodes.len(),
            c == offset_at(lengths, i as int),
            rows@ == rows_upto(lengths, counts@, i as int),
        decreases nodes.len() - i,
    {
        let size = nodes[i];
        let ghost before = rows@;
        let ghost run = node_rows(lengths, counts@, i + 1);
        proof {
            lemma_offsets_chain(lengths);
            lemma_offsets_ordered(lengths, i + 1, lengths.len() as int);
            assert(offset_at(lengths, i + 1) == offset_at(lengths, i as int) + lengths[i as int]);
        }
        let mut x: usize = 0;
        while x < size
            invariant
                0 <= x <= size,
                size == lengths[i as int],
                i < nodes.len(),
                nodes@ == lengths,
                c == offset_at(lengths, i as int) + x,
                offset_at(lengths, i as int) + size <= counts@.len(),
                counts@.len() <= usize::MAX,
                run == node_rows(lengths, counts@, i + 1),
                rows@ == before + run.take(x as int),
            decreases size - x,
        {
            rows.push(PackRow { seq_pos: c, node_id: i + 1, node_offset: x, coverage: counts[c] });
            proof {
                assert(run.take(x + 1) =~= run.take(x as int).push(run[x as int]));
                assert(rows@ =~= before + run.take(x + 1));
            }
            c += 1;
            x += 1;
        }
        proof {
            assert(run.take(size as int) =~= run);
        }
        i += 1;
    }
    Ok(rows)
}

/// The first line of a pack file.
pub open spec fn header_text() -> Seq<char> {
    "seq.pos\tnode.id\tnode.offset\tcoverage"@
}

/// The first line of a pack file, without the line break.
pub fn pack_header() -> (r: &'static str)
    ensures
        r@ == header_text(),
{
    "seq.pos\tnode.id\tnode.offset\tcoverage"
}

/// The text of a row: its four numbers in decimal, with a tab between each
/// two.
pub open spec fn row_text(row: PackRow) -> Seq<char> {
    decimal_digits(row.seq_pos as nat) + seq!['\t'] + decimal_digits(row.node_id as nat) + seq![
        '\t',
    ] + decimal_digits(row.node_offset as nat) + seq!['\t'] + decimal_digits(
        row.coverage as nat,
    )
}

/// Writes a row as a line of a pack file, without the line break.
pub fn pack_line(row: &PackRow) -> (r: String)
    ensures
        r@ == row_text(*row),
{
    let mut out = String::new();
    push_decimal(&mut out, row.seq_pos);
    push_char(&mut out, '\t');
    push_decimal(&mut out, row.node_id);
    push_char(&mut out, '\t');
    push_decimal(&mut out, row.node_offset);
    push_char(&mut out, '\t');
    push_decimal(&mut out, row.coverage);
    assert(out@ =~= row_text(*row));
    out
}

} // verus!
