//! An embedded, persistent key/value store built around an append-only,
//! log-structured byte format with an in-memory index.
//!
//! The engine keeps the full byte image of every data file and its sibling
//! hint file in memory; a host program mirrors those bytes to disk and feeds
//! them back at startup. Every operation on the store is verified against a
//! mathematical model: the map from keys to values that the log encodes.

pub mod checksum;
pub mod codec;
pub mod crabe_db;
pub mod error;
pub mod index;
pub mod laws;
pub mod lsm;
pub mod options;
pub mod util;
