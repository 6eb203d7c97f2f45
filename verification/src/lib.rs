//! Control-metadata core of an open-addressing hash table.
//!
//! The crate maintains, next to an array of key slots, a parallel array of
//! one-byte control tags.  Membership, insertion-point and deletion queries
//! scan a fixed-width group of tags at a time and answer with a bitmask of
//! matching lanes.  On collision, a triangular-number probe sequence walks
//! the group-aligned positions of the table; growth and tombstone
//! reclamation keep every probe sequence short.

pub mod bitmask;
pub mod group;
pub mod probe;
pub mod table;
pub mod tag;
