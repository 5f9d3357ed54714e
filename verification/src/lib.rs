//! A minimal embedded key-value store built on a single append-only log.
//!
//! The log is a concatenation of records, each carrying a checksum, the key
//! and value lengths, and the key and value bytes. An in-memory index maps
//! each key to the offset of its latest record; it is rebuilt from the log
//! bytes by replay and kept current by every write. Reading the log bytes
//! from a file and writing appended bytes back belong to the caller.

pub mod checksum;
pub mod codec;
pub mod index;
pub mod laws;
pub mod replay;
pub mod store;

pub use codec::Decoded;
pub use codec::KeyValuePair;
pub use index::IndexEntry;
pub use store::ActionKv;
pub use store::StoreError;
