//! A Bitcask-style, single-writer, log-structured key-value store engine.
//!
//! The engine maps string keys to string values.  Its persistent state is a
//! single append-only log of framed commands; an in-memory index maps each
//! live key to the offset and length of the log entry that holds its value.
//!
//! The engine itself performs no I/O.  Every operation is a verified state
//! transition over the store's model of the log: mutating operations return
//! the exact bytes the caller must append to (or, for compaction, swap in
//! for) the log file, and reading operations take the bytes the caller read
//! back from the file at the offsets the index supplies.


pub mod codec;
pub mod error;
pub mod laws;
pub mod store;


