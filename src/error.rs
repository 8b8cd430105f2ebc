use vstd::prelude::*;

verus! {

/// Errors surfaced by the store and its request handling.
#[derive(Debug, Clone, PartialEq, Eq)]
pub enum HobbesError {
    /// A filesystem or socket operation failed.
    IoError(String),
    /// A record could not be encoded for the log.
    SerializationError(String),
    /// Bytes read from a log did not hold a well-formed record.
    DeserializationError(String),
    /// The key is not present in the store.
    KeyNotFoundError,
    /// An argument or request was not usable.
    CliError(String),
    /// A key of the index could not be carried over during compaction.
    CompactionError(String),
    /// The index refers to a segment that has no reader.
    LogReaderNotFoundError(String),
    /// The sibling backend already owns the store root.
    BackendConflictError(String),
    /// The store root is not a usable directory path.
    InvalidPathError(String),
    /// The embedded sled backend reported an error.
    SledDbError(String),
    /// Communication between client and server failed.
    NetworkError(String),
    /// A job could not be handed to the worker pool.
    ChannelSendError(String),
}

/// Result type of the store.
pub type Result<T> = std::result::Result<T, HobbesError>;

} // verus!
