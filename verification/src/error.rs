//! The ways in which the input can be unusable.

use vstd::prelude::*;

verus! {

/// Why a graph, an alignment record or a run was rejected. Every one of these
/// ends the run: a coverage table is either complete or not produced.
#[derive(Clone, Copy, Debug, PartialEq, Eq, Structural)]
pub enum PackError {
    /// The graph holds no segment record.
    EmptyGraph,
    /// A segment record has fewer than three tab-separated fields.
    ShortSegment,
    /// The id of a segment is not a positive integer that fits in a `usize`.
    InvalidNodeId,
    /// The node lengths add up to more than a `usize` holds.
    GraphTooLarge,
    /// A walk is the empty string.
    EmptyWalk,
    /// A walk holds a character where a direction marker is expected.
    InvalidWalk,
    /// A direction marker of a walk is not followed by digits.
    MissingNodeId,
    /// A run of digits in a walk or a CIGAR string does not fit in a `usize`.
    NumberTooLarge,
    /// An operation of a CIGAR string has no digits before it.
    MissingLength,
    /// A CIGAR string ends in digits that no operation follows.
    MissingOperation,
    /// A CIGAR string holds a character that is neither a digit nor an operation.
    UnknownOperation,
    /// An alignment record has too few fields.
    MissingField,
    /// A numeric field of an alignment record is not an unsigned integer.
    InvalidInteger,
    /// The last field of an alignment record has fewer than three parts between colons.
    MissingCigar,
    /// A walk names a node that the graph does not have.
    UnknownNode,
    /// A match reaches beyond the end of the path that the walk describes.
    PathIndexOutOfRange,
    /// An increment names a coordinate outside the coverage table.
    CoordinateOutOfRange,
    /// A counter of the coverage table is at its maximum.
    CounterOverflow,
    /// A coverage table has another size than the coordinate space of the graph.
    TableSizeMismatch,
    /// The byte offset of a line does not fit in a `u64`.
    OffsetOverflow,
}

} // verus!
