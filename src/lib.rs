//! A log-structured key-value store in the Bitcask style: append-only segment
//! files, an in-memory index from each live key to the record that holds its
//! value, replay of the segments on open, and compaction of the live set.
//!
//! The modules here hold the store's logic and its proofs; reading and writing
//! files and sockets is left to the caller, which hands bytes in and carries the
//! returned bytes out.

pub mod error;
pub mod codec;
pub mod index;
pub mod store;
pub mod decimal;
pub mod layout;
pub mod protocol;
pub mod clock;
pub mod engine;
pub mod thread_pool;
