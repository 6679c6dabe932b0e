//! Per-base coverage of a sequence graph from graph alignments.
//!
//! A graph is a set of nodes, each a sequence of bases. The nodes, in order of
//! their ids, are laid end to end into one coordinate space ([`graph`]). An
//! alignment record names a walk through the graph ([`walk`]) and says with a
//! CIGAR string ([`cigar`]) which bases of the walk the read matches; the mapper
//! turns the record into the global coordinates of those bases ([`mapper`]). The
//! coverage table counts, for every coordinate, the records that match there
//! ([`coverage`]), and the pack table lists the counts with the node and offset of
//! each coordinate ([`pack`]).
//!
//! The lines of an alignment can be worked through one by one or in chunks
//! that leave out repeated lines ([`strategy`], [`chunks`]). The functions here
//! take lines and give values; reading files and running threads is left to the
//! caller, which may make the increments in any order ([`coverage`] shows why).

pub mod chunks;
pub mod cigar;
pub mod coverage;
pub mod error;
pub mod graph;
pub mod mapper;
pub mod pack;
pub mod strategy;
pub mod text;
pub mod walk;
