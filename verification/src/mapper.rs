//! The alignment record mapper: from a line of the alignment file to the
//! global coordinates whose coverage the record raises.

use crate::cigar::{cigar_of, parse_cigar, CigarOperation, CigarUnit};
use crate::error::PackError;
use crate::graph::{
    lemma_offsets_chain, lemma_offsets_ordered, offset_at, total_length, GraphIndex,
};
use crate::text::{
    chars_of, fields, integer_field, parse_integer, parts, split_on, split_whitespace,
};
use crate::walk::{parse_walk, walk_of, zip_steps};
use vstd::prelude::*;

verus! {

/// What the mapper needs of an alignment record: the walk, the number of
/// path positions to skip before the alignment begins, and the match and
/// deletion units of the CIGAR string.
#[derive(Debug)]
pub struct AlignmentRecord {
    pub node_id: Vec<usize>,
    pub dirs: Vec<bool>,
    pub offset: usize,
    pub cigar: Vec<CigarUnit>,
}

/// The mathematical content of an alignment record.
pub struct Record {
    pub steps: Seq<(usize, bool)>,
    pub start: usize,
    pub units: Seq<CigarUnit>,
}

impl View for AlignmentRecord {
    type V = Record;

    open spec fn view(&self) -> Record {
        Record {
            steps: zip_steps(self.node_id@, self.dirs@),
            start: self.offset,
            units: self.cigar@,
        }
    }
}

/// The number in field `k` of a record.
pub open spec fn number_at(fields: Seq<Seq<char>>, k: int) -> Result<usize, PackError> {
    if k >= fields.len() {
        Err(PackError::MissingField)
    } else {
        match integer_field(fields[k]) {
            Some(v) => Ok(v),
            None => Err(PackError::InvalidInteger),
        }
    }
}

/// The CIGAR string of a record: the third of the parts that colons separate
/// in the last field, which lies after the ten leading fields.
pub open spec fn cigar_text(fields: Seq<Seq<char>>) -> Result<Seq<char>, PackError> {
    if fields.len() <= 10 {
        Err(PackError::MissingField)
    } else if parts(fields.last(), ':').len() < 3 {
        Err(PackError::MissingCigar)
    } else {
        Ok(parts(fields.last(), ':')[2])
    }
}

/// What the numeric fields and the CIGAR string of a record with the walk
/// `steps` amount to. Fields 6 to 9 hold the path length, the start offset, the
/// sentinel and the total length. A record whose path length is below the
/// sentinel is skipped (`None`).
pub open spec fn record_with_walk(fields: Seq<Seq<char>>, steps: Seq<(usize, bool)>) -> Result<
    Option<Record>,
    PackError,
> {
    let path_len = number_at(fields, 6);
    let start = number_at(fields, 7);
    let sentinel = number_at(fields, 8);
    let total = number_at(fields, 9);
    let text = cigar_text(fields);
    if path_len is Err {
        Err(path_len->Err_0)
    } else if start is Err {
        Err(start->Err_0)
    } else if sentinel is Err {
        Err(sentinel->Err_0)
    } else if total is Err {
        Err(total->Err_0)
    } else if path_len->Ok_0 < sentinel->Ok_0 {
        Ok(None)
    } else if text is Err {
        Err(text->Err_0)
    } else {
        match cigar_of(text->Ok_0) {
            Err(e) => Err(e),
            Ok(units) => Ok(Some(Record { steps, start: start->Ok_0, units })),
        }
    }
}

/// What the whitespace-separated fields of a line amount to: a record to map,
/// a record to skip (`None`), or the first reason why the line is unusable.
/// Field 5 is the walk; the walk `0` stands for no alignment and is skipped.
pub open spec fn record_of(fields: Seq<Seq<char>>) -> Result<Option<Record>, PackError> {
    if fields.len() <= 5 {
        Err(PackError::MissingField)
    } else if fields[5] == seq!['0'] {
        Ok(None)
    } else {
        match walk_of(fields[5]) {
            Err(e) => Err(e),
            Ok(steps) => record_with_walk(fields, steps),
        }
    }
}

/// The path positions of one node: the node with each of its local offsets,
/// ascending when the node is passed forwards, descending when backwards.
pub open spec fn node_positions(node: usize, forward: bool, length: usize) -> Seq<(usize, usize)> {
    Seq::new(
        length as nat,
        |i: int|
            (
                node,
                (if forward {
                    i
                } else {
                    length - 1 - i
                }) as usize,
            ),
    )
}

/// The path of a walk: the positions of its nodes, one node after the other.
/// A walk that names a node outside the table has no path.
pub open spec fn path_of(steps: Seq<(usize, bool)>, lengths: Seq<usize>) -> Result<
    Seq<(usize, usize)>,
    PackError,
>
    decreases steps.len(),
{
    if steps.len() == 0 {
        Ok(Seq::empty())
    } else {
        match path_of(steps.drop_last(), lengths) {
            Err(e) => Err(e),
            Ok(before) => {
                let (node, forward) = steps.last();
                if 1 <= node <= lengths.len() {
                    Ok(before + node_positions(node, forward, lengths[node - 1]))
                } else {
                    Err(PackError::UnknownNode)
                }
            },
        }
    }
}

/// Whether a path position names a base of the graph.
pub open spec fn position_valid(position: (usize, usize), lengths: Seq<usize>) -> bool {
    1 <= position.0 <= lengths.len() && position.1 < lengths[position.0 - 1]
}

/// The global coordinate of a path position: where its node begins, plus the
/// local offset.
pub open spec fn coordinate(lengths: Seq<usize>, position: (usize, usize)) -> nat {
    (offset_at(lengths, position.0 - 1) + position.1) as nat
}

/// The coordinate of a base of the graph lies inside the coordinate space.
pub proof fn lemma_coordinate_in_range(lengths: Seq<usize>, position: (usize, usize))
    requires
        position_valid(position, lengths),
    ensures
        coordinate(lengths, position) < offset_at(lengths, position.0 as int) <= total_length(
            lengths,
        ),
{
    lemma_offsets_chain(lengths);
    lemma_offsets_ordered(lengths, position.0 as int, lengths.len() as int);
    let before = position.0 - 1;
    assert(offset_at(lengths, before + 1) == offset_at(lengths, before) + lengths[before]);
}

/// Every position of a path names a base of the graph.
pub proof fn lemma_path_valid(steps: Seq<(usize, bool)>, lengths: Seq<usize>)
    requires
        path_of(steps, lengths) is Ok,
    ensures
        forall|i: int|
            0 <= i < path_of(steps, lengths)->Ok_0.len() ==> position_valid(
                #[trigger] path_of(steps, lengths)->Ok_0[i],
                lengths,
            ),
    decreases steps.len(),
{
    if steps.len() > 0 {
        lemma_path_valid(steps.drop_last(), lengths);
    }
}

/// How far the units move the cursor: by the length of each, whatever its
/// operation.
pub open spec fn cursor_after(units: Seq<CigarUnit>) -> nat
    decreases units.len(),
{
    if units.len() == 0 {
        0
    } else {
        (cursor_after(units.drop_last()) + units.last().length) as nat
    }
}

/// The coordinates of the `length` path positions from `from` on.
pub open spec fn matched(
    path: Seq<(usize, usize)>,
    from: int,
    length: nat,
    lengths: Seq<usize>,
) -> Seq<usize> {
    Seq::new(length, |i: int| coordinate(lengths, path[from + i]) as usize)
}

/// The coordinates that the units increment, in order. The cursor begins at
/// `start`; a match increments the coordinate of each path position it passes,
/// any other unit passes its positions without incrementing. A match that is
/// not empty and reaches beyond the path is an error.
pub open spec fn increments_of(
    units: Seq<CigarUnit>,
    start: nat,
    path: Seq<(usize, usize)>,
    lengths: Seq<usize>,
) -> Result<Seq<usize>, PackError>
    decreases units.len(),
{
    if units.len() == 0 {
        Ok(Seq::empty())
    } else {
        match increments_of(units.drop_last(), start, path, lengths) {
            Err(e) => Err(e),
            Ok(before) => {
                let unit = units.last();
                let from = start + cursor_after(units.drop_last());
                if unit.operation != CigarOperation::Match || unit.length == 0 {
                    Ok(before)
                } else if from + unit.length > path.len() {
                    Err(PackError::PathIndexOutOfRange)
                } else {
                    Ok(before + matched(path, from as int, unit.length as nat, lengths))
                }
            },
        }
    }
}

/// The coordinates that a record increments on a graph with the given node
/// length table.
pub open spec fn record_increments(record: Record, lengths: Seq<usize>) -> Result<
    Seq<usize>,
    PackError,
> {
    match path_of(record.steps, lengths) {
        Err(e) => Err(e),
        Ok(path) => increments_of(record.units, record.start as nat, path, lengths),
    }
}

/// The coordinates that a line of the alignment file increments: none for a
/// skipped record.
pub open spec fn line_increments(line: Seq<char>, lengths: Seq<usize>) -> Result<
    Seq<usize>,
    PackError,
> {
    match record_of(fields(line)) {
        Err(e) => Err(e),
        Ok(None) => Ok(Seq::empty()),
        Ok(Some(record)) => record_increments(record, lengths),
    }
}

/// Builds the path of a walk over the node length table.
pub fn walk_positions(node_id: &Vec<usize>, dirs: &Vec<bool>, lengths: &Vec<usize>) -> (r: Result<
    Vec<(usize, usize)>,
    PackError,
>)
    ensures
        match path_of(zip_steps(node_id@, dirs@), lengths@) {
            Ok(path) => r is Ok && r->Ok_0@ == path,
            Err(e) => r is Err && r->Err_0 == e,
        },
{
    let ghost steps = zip_steps(node_id@, dirs@);
    let count: usize = if node_id.len() <= dirs.len() {
        node_id.len()
    } else {
        dirs.len()
    };
    let mut index: Vec<(usize, usize)> = Vec::new();
    let mut k: usize = 0;
    proof {
        assert(steps.take(0) =~= Seq::<(usize, bool)>::empty());
    }
    while k < count
        invariant
            steps == zip_steps(node_id@, dirs@),
            count == steps.len(),
            count <= node_id.len(),
            count <= dirs.len(),
            0 <= k <= count,
            path_of(steps.take(k as int), lengths@) == Ok::<_, PackError>(index@),
        decreases count - k,
    {
        let node = node_id[k];
        let dir = dirs[k];
        proof {
            assert(steps.take(k + 1).drop_last() =~= steps.take(k as int));
            assert(steps.take(k + 1).last() == (node, dir));
        }
        if node < 1 || node > lengths.len() {
            proof {
                lemma_path_error(steps, lengths@, k + 1);
            }
            return Err(PackError::UnknownNode);
        }
        let size = lengths[node - 1];
        let ghost before = index@;
        let ghost run = node_positions(node, dir, size);
        let mut x: usize = 0;
        while x < size
            invariant
                0 <= x <= size,
                run == node_positions(node, dir, size),
                index@ == before + run.take(x as int),
            decreases size - x,
        {
            if dir {
                index.push((node, x));
            } else {
                index.push((node, size - 1 - x));
            }
            proof {
                assert(run.take(x + 1) =~= run.take(x as int).push(run[x as int]));
                assert(index@ =~= before + run.take(x + 1));
            }
            x += 1;
        }
        proof {
            assert(run.take(size as int) =~= run);
        }
        k += 1;
    }
    proof {
        assert(steps.take(k as int) =~= steps);
    }
    Ok(index)
}

/// An unknown node among the first `n` steps leaves the whole walk without a
/// path.
proof fn lemma_path_error(steps: Seq<(usize, bool)>, lengths: Seq<usize>, n: int)
    requires
        0 <= n <= steps.len(),
        path_of(steps.take(n), lengths) is Err,
    ensures
        path_of(steps, lengths) == path_of(steps.take(n), lengths),
    decreases steps.len() - n,
{
    if n < steps.len() {
        assert(steps.take(n + 1).drop_last() =~= steps.take(n));
        lemma_path_error(steps, lengths, n + 1);
    } else {
        assert(steps.take(n) =~= steps);
    }
}

/// A match that fails among the first `n` units fails the whole record.
proof fn lemma_increments_error(
    units: Seq<CigarUnit>,
    start: nat,
    path: Seq<(usize, usize)>,
    lengths: Seq<usize>,
    n: int,
)
    requires
        0 <= n <= units.len(),
        increments_of(units.take(n), start, path, lengths) is Err,
    ensures
        increments_of(units, start, path, lengths) == increments_of(
            units.take(n),
            start,
            path,
            lengths,
        ),
    decreases units.len() - n,
{
    if n < units.len() {
        assert(units.take(n + 1).drop_last() =~= units.take(n));
        lemma_increments_error(units, start, path, lengths, n + 1);
    } else {
        assert(units.take(n) =~= units);
    }
}

/// Walks the units of a CIGAR string along a path and collects the global
/// coordinates of the matched positions.
pub fn emit_increments(
    cigar: &Vec<CigarUnit>,
    offset: usize,
    path: &Vec<(usize, usize)>,
    graph: &GraphIndex,
) -> (r: Result<Vec<usize>, PackError>)
    requires
        forall|i: int| 0 <= i < path@.len() ==> position_valid(#[trigger] path@[i], graph@),
    ensures
        match increments_of(cigar@, offset as nat, path@, graph@) {
            Ok(increments) => r is Ok && r->Ok_0@ == increments,
            Err(e) => r is Err && r->Err_0 == e,
        },
        r is Ok ==> forall|i: int|
            0 <= i < r->Ok_0@.len() ==> #[trigger] r->Ok_0@[i] < total_length(graph@),
{
    let index_index = graph.offsets();
    let lengths = graph.lengths();
    let ghost units = cigar@;
    let mut out: Vec<usize> = Vec::new();
    // The cursor, held back at the end of the path once it has passed it.
    let mut at: usize = if offset <= path.len() {
        offset
    } else {
        path.len()
    };
    let mut k: usize = 0;
    proof {
        assert(units.take(0) =~= Seq::<CigarUnit>::empty());
    }
    while k < cigar.len()
        invariant
            units == cigar@,
            lengths@ == graph@,
            total_length(graph@) <= usize::MAX,
            index_index@.len() == graph@.len(),
            forall|i: int|
                0 <= i < index_index@.len() ==> #[trigger] index_index@[i] == offset_at(
                    graph@,
                    i,
                ),
            forall|i: int| 0 <= i < path@.len() ==> position_valid(#[trigger] path@[i], graph@),
            0 <= k <= cigar.len(),
            at <= path.len(),
            at == path.len() || at == offset + cursor_after(units.take(k as int)),
            at == path.len() ==> offset + cursor_after(units.take(k as int)) >= path.len(),
            increments_of(units.take(k as int), offset as nat, path@, graph@) == Ok::<
                _,
                PackError,
            >(out@),
            forall|i: int| 0 <= i < out@.len() ==> #[trigger] out@[i] < total_length(graph@),
        decreases cigar.len() - k,
    {
        let unit = cigar[k];
        let ghost from = offset + cursor_after(units.take(k as int));
        proof {
            assert(units.take(k + 1).drop_last() =~= units.take(k as int));
            assert(units.take(k + 1).last() == unit);
        }
        let room: usize = path.len() - at;
        if unit.operation == CigarOperation::Match && unit.length > 0 {
            if unit.length > room {
                proof {
                    lemma_increments_error(units, offset as nat, path@, graph@, k + 1);
                }
                return Err(PackError::PathIndexOutOfRange);
            }
            let ghost before = out@;
            let ghost run = matched(path@, from as int, unit.length as nat, graph@);
            let mut y: usize = 0;
            while y < unit.length
                invariant
                    0 <= y <= unit.length,
                    at == from,
                    at + unit.length <= path.len(),
                    lengths@ == graph@,
                    total_length(graph@) <= usize::MAX,
                    index_index@.len() == graph@.len(),
                    forall|i: int|
                        0 <= i < index_index@.len() ==> #[trigger] index_index@[i] == offset_at(
                            graph@,
                            i,
                        ),
                    forall|i: int|
                        0 <= i < path@.len() ==> position_valid(#[trigger] path@[i], graph@),
                    run == matched(path@, from as int, unit.length as nat, graph@),
                    out@ == before + run.take(y as int),
                    forall|i: int|
                        0 <= i < out@.len() ==> #[trigger] out@[i] < total_length(graph@),
                decreases unit.length - y,
            {
                let which = path[at + y];
                proof {
                    assert(position_valid(path@[at + y], graph@));
                    lemma_coordinate_in_range(graph@, which);
                }
                let start_of_node = index_index[which.0 - 1];
                out.push(start_of_node + which.1);
                proof {
                    assert(run.take(y + 1) =~= run.take(y as int).push(run[y as int]));
                    assert(out@ =~= before + run.take(y + 1));
                }
                y += 1;
            }
            proof {
                assert(run.take(unit.length as int) =~= run);
            }
        }
        if unit.length >= room {
            at = path.len();
        } else {
            at = at + unit.length;
        }
        k += 1;
    }
    proof {
        assert(units.take(k as int) =~= units);
    }
    Ok(out)
}

/// Maps a record onto the graph: the global coordinates to increment, in the
/// order of the CIGAR string.
pub fn map_record(record: &AlignmentRecord, graph: &GraphIndex) -> (r: Result<
    Vec<usize>,
    PackError,
>)
    ensures
        match record_increments(record@, graph@) {
            Ok(increments) => r is Ok && r->Ok_0@ == increments,
            Err(e) => r is Err && r->Err_0 == e,
        },
        r is Ok ==> forall|i: int|
            0 <= i < r->Ok_0@.len() ==> #[trigger] r->Ok_0@[i] < total_length(graph@),
{
    match walk_positions(&record.node_id, &record.dirs, graph.lengths()) {
        Err(e) => Err(e),
        Ok(path) => {
            proof {
                lemma_path_valid(record@.steps, graph@);
            }
            emit_increments(&record.cigar, record.offset, &path, graph)
        },
    }
}

/// The number in field `k` of a record.
fn number(fields: &Vec<Vec<char>>, k: usize) -> (r: Result<usize, PackError>)
    ensures
        k >= fields@.len() ==> r == Err::<usize, _>(PackError::MissingField),
        k < fields@.len() ==> r == match integer_field(fields@[k as int]@) {
            Some(v) => Ok::<_, PackError>(v),
            None => Err(PackError::InvalidInteger),
        },
{
    if k >= fields.len() {
        Err(PackError::MissingField)
    } else {
        match parse_integer(&fields[k]) {
            Some(v) => Ok(v),
            None => Err(PackError::InvalidInteger),
        }
    }
}

/// Reads a line of the alignment file. Returns `None` for a record that is to
/// be skipped.
pub fn parse_record(line: &str) -> (r: Result<Option<AlignmentRecord>, PackError>)
    ensures
        match record_of(fields(line@)) {
            Ok(Some(record)) => r is Ok && r->Ok_0 is Some && r->Ok_0->Some_0@ == record,
            Ok(None) => r is Ok && r->Ok_0 is None,
            Err(e) => r is Err && r->Err_0 == e,
        },
{
    let chars = chars_of(line);
    let lsplit = split_whitespace(&chars);
    let ghost all = fields(line@);
    if lsplit.len() <= 5 {
        return Err(PackError::MissingField);
    }
    let subpath = &lsplit[5];
    proof {
        assert(subpath@ == all[5]);
        if subpath@.len() == 1 && subpath@[0] == '0' {
            assert(subpath@ =~= seq!['0']);
        }
    }
    if subpath.len() == 1 && subpath[0] == '0' {
        return Ok(None);
    }
    let (node_id, dirs) = match parse_walk(subpath) {
        Err(e) => {
            return Err(e);
        },
        Ok(walk) => walk,
    };
    proof {
        let steps = walk_of(all[5])->Ok_0;
        assert(zip_steps(node_id@, dirs@) =~= steps);
    }
    let path_len = match number(&lsplit, 6) {
        Err(e) => {
            return Err(e);
        },
        Ok(v) => v,
    };
    let offset = match number(&lsplit, 7) {
        Err(e) => {
            return Err(e);
        },
        Ok(v) => v,
    };
    let sentinel = match number(&lsplit, 8) {
        Err(e) => {
            return Err(e);
        },
        Ok(v) => v,
    };
    match number(&lsplit, 9) {
        Err(e) => {
            return Err(e);
        },
        Ok(_) => {},
    }
    if path_len < sentinel {
        return Ok(None);
    }
    if lsplit.len() <= 10 {
        return Err(PackError::MissingField);
    }
    let tags = split_on(&lsplit[lsplit.len() - 1], ':');
    if tags.len() < 3 {
        return Err(PackError::MissingCigar);
    }
    match parse_cigar(&tags[2]) {
        Err(e) => Err(e),
        Ok(cigar) => Ok(Some(AlignmentRecord { node_id, dirs, offset, cigar })),
    }
}

/// Maps a line of the alignment file onto the graph: the global coordinates
/// to increment, none for a skipped record.
pub fn parse_line(line: &str, graph: &GraphIndex) -> (r: Result<Vec<usize>, PackError>)
    ensures
        match line_increments(line@, graph@) {
            Ok(increments) => r is Ok && r->Ok_0@ == increments,
            Err(e) => r is Err && r->Err_0 == e,
        },
        r is Ok ==> forall|i: int|
            0 <= i < r->Ok_0@.len() ==> #[trigger] r->Ok_0@[i] < total_length(graph@),
{
    match parse_record(line) {
        Err(e) => Err(e),
        Ok(None) => Ok(Vec::new()),
        Ok(Some(record)) => map_record(&record, graph),
    }
}

/// A record that begins at the start of the path of `steps` and matches the
/// whole of it in one run.
pub open spec fn full_match(steps: Seq<(usize, bool)>, lengths: Seq<usize>) -> Record {
    Record {
        steps,
        start: 0,
        units: seq![
            CigarUnit {
                length: path_of(steps, lengths)->Ok_0.len() as usize,
                operation: CigarOperation::Match,
            },
        ],
    }
}

/// The global coordinates of a node in ascending order.
pub open spec fn node_range(lengths: Seq<usize>, node: usize) -> Seq<usize> {
    Seq::new(lengths[node - 1] as nat, |i: int| (offset_at(lengths, node - 1) + i) as usize)
}

/// A record that matches the whole path of its walk in one run increments the
/// coordinate of every position of the path once, in the order of the path.
pub proof fn lemma_full_match(steps: Seq<(usize, bool)>, lengths: Seq<usize>)
    requires
        path_of(steps, lengths) is Ok,
        path_of(steps, lengths)->Ok_0.len() <= usize::MAX,
    ensures
        record_increments(full_match(steps, lengths), lengths) == Ok::<_, PackError>(
            matched(
                path_of(steps, lengths)->Ok_0,
                0,
                path_of(steps, lengths)->Ok_0.len(),
                lengths,
            ),
        ),
{
    let path = path_of(steps, lengths)->Ok_0;
    let record = full_match(steps, lengths);
    let units = record.units;
    assert(units.drop_last() =~= Seq::<CigarUnit>::empty());
    assert(cursor_after(units.drop_last()) == 0);
    assert(increments_of(units.drop_last(), 0, path, lengths) == Ok::<_, PackError>(
        Seq::<usize>::empty(),
    ));
    assert(Seq::<usize>::empty() + matched(path, 0, path.len(), lengths) =~= matched(
        path,
        0,
        path.len(),
        lengths,
    ));
    if path.len() == 0 {
        assert(matched(path, 0, path.len(), lengths) =~= Seq::<usize>::empty());
    }
}

/// The path of a walk of one step is the positions of its node.
proof fn lemma_single_step_path(lengths: Seq<usize>, node: usize, forward: bool)
    requires
        1 <= node <= lengths.len(),
    ensures
        path_of(seq![(node, forward)], lengths) == Ok::<_, PackError>(
            node_positions(node, forward, lengths[node - 1]),
        ),
{
    let steps = seq![(node, forward)];
    assert(steps.drop_last() =~= Seq::<(usize, bool)>::empty());
    assert(path_of(steps.drop_last(), lengths) == Ok::<_, PackError>(
        Seq::<(usize, usize)>::empty(),
    ));
    assert(Seq::<(usize, usize)>::empty() + node_positions(node, forward, lengths[node - 1])
        =~= node_positions(node, forward, lengths[node - 1]));
}

/// A record that walks one node forwards and matches its whole length
/// increments exactly the coordinates of the node, each once, in ascending
/// order.
pub proof fn lemma_forward_node(lengths: Seq<usize>, node: usize)
    requires
        1 <= node <= lengths.len(),
        total_length(lengths) <= usize::MAX,
    ensures
        record_increments(full_match(seq![(node, true)], lengths), lengths) == Ok::<
            _,
            PackError,
        >(node_range(lengths, node)),
{
    let steps = seq![(node, true)];
    lemma_single_step_path(lengths, node, true);
    lemma_full_match(steps, lengths);
    let path = path_of(steps, lengths)->Ok_0;
    assert(matched(path, 0, path.len(), lengths) =~= node_range(lengths, node));
}

/// A record that walks one node backwards and matches its whole length
/// increments the coordinates of the node in descending order: the same
/// coordinates as the walk forwards, each once, the other way round.
pub proof fn lemma_reverse_node(lengths: Seq<usize>, node: usize)
    requires
        1 <= node <= lengths.len(),
        total_length(lengths) <= usize::MAX,
    ensures
        record_increments(full_match(seq![(node, false)], lengths), lengths) == Ok::<
            _,
            PackError,
        >(node_range(lengths, node).reverse()),
        forall|i: int, j: int|
            0 <= i < j < lengths[node - 1] ==> #[trigger] node_range(lengths, node).reverse()[i]
                > #[trigger] node_range(lengths, node).reverse()[j],
        forall|c: usize|
            node_range(lengths, node).reverse().contains(c) <==> node_range(
                lengths,
                node,
            ).contains(c),
        node_range(lengths, node).reverse().to_multiset() == node_range(
            lengths,
            node,
        ).to_multiset(),
{
    let steps = seq![(node, false)];
    lemma_single_step_path(lengths, node, false);
    lemma_full_match(steps, lengths);
    let path = path_of(steps, lengths)->Ok_0;
    let forward = node_range(lengths, node);
    let backward = forward.reverse();
    lemma_offsets_chain(lengths);
    lemma_offsets_ordered(lengths, node as int, lengths.len() as int);
    let before = node - 1;
    assert(offset_at(lengths, before + 1) == offset_at(lengths, before) + lengths[before]);
    assert(matched(path, 0, path.len(), lengths) =~= backward);
    assert forall|c: usize| backward.contains(c) <==> forward.contains(c) by {
        if backward.contains(c) {
            let i = choose|i: int| 0 <= i < backward.len() && backward[i] == c;
            assert(forward[forward.len() - 1 - i] == c);
        }
        if forward.contains(c) {
            let i = choose|i: int| 0 <= i < forward.len() && forward[i] == c;
            assert(backward[backward.len() - 1 - i] == c);
        }
    }
    forward.lemma_reverse_to_multiset();
}

/// A record whose walk is `0` aligns to nothing: it increments no coordinate
/// and is no error.
pub proof fn lemma_no_alignment_is_skipped(line: Seq<char>, lengths: Seq<usize>)
    requires
        fields(line).len() > 5,
        fields(line)[5] == seq!['0'],
    ensures
        line_increments(line, lengths) == Ok::<_, PackError>(Seq::<usize>::empty()),
{
}

/// A record whose walk and numeric fields can be read and whose path length
/// is below its sentinel increments no coordinate and is no error.
pub proof fn lemma_short_path_is_skipped(line: Seq<char>, lengths: Seq<usize>)
    requires
        walk_of(fields(line)[5]) is Ok,
        number_at(fields(line), 6) is Ok,
        number_at(fields(line), 7) is Ok,
        number_at(fields(line), 8) is Ok,
        number_at(fields(line), 9) is Ok,
        number_at(fields(line), 6)->Ok_0 < number_at(fields(line), 8)->Ok_0,
    ensures
        line_increments(line, lengths) == Ok::<_, PackError>(Seq::<usize>::empty()),
{
}

} // verus!
