//! An embedded key-value store kept as an append-only log of records, split
//! over numbered segments, with an in-memory index from each key to the place
//! of its current record.
//!
//! Files are held as byte images: every function here computes on plain
//! values, and a caller that wants durability writes the images out.

pub mod basic;
pub mod compaction;
pub mod data;
pub mod directory;
pub mod error;
pub mod hash;
pub mod ifc;
pub mod index;
pub mod laws;
pub mod log;
pub mod recovery;
pub mod segment;
