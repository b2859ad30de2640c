//! Core of a single-partition, append-only commit log.
//!
//! The crate verifies the storage logic itself: the record codec, the
//! in-memory image of a segment's log file, the sparse index, the segment
//! (capacity, sampling, indexed reads), and the partition (roll-over and
//! offset routing).  File handling, memory mapping and clock formatting are
//! left to the embedding application, which feeds this core plain bytes.

pub mod codec;
pub mod record;
pub mod stream;
pub mod log;
pub mod index;
pub mod segment;
pub mod names;
pub mod partition;
