//! A small persistent record store.
//!
//! A collection of values is kept in memory as a stream of checksum-framed
//! records and persisted as a single byte image: a fixed header (magic number
//! and format version) followed by zero or more records, each laid out as
//! `[checksum:4][length:4][payload:length]` with all integers little-endian.
//! The checksum is a 32-bit CRC over the payload bytes.
//!
//! Loading an image tolerates a truncated trailing record (the stream simply
//! ends there) and recovers from payload corruption: records whose stored
//! checksum disagrees with the recomputed one are still decoded best-effort,
//! and the whole collection is handed back wrapped in a poison marker that
//! carries the diagnostic checksum pair.

pub mod checksum;
pub mod collection;
pub mod container;
pub mod error;
pub mod laws;
pub mod load;
pub mod message;
pub mod record;
pub mod storable;
pub mod wire;
