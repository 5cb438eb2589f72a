use vstd::prelude::*;

verus! {

/// The failure kinds that storage operations surface to their callers.
///
/// Cache and bloom-filter misses are normal control flow, never errors.
#[derive(Debug, Clone, Copy, PartialEq, Eq, Structural)]
pub enum StorageError {
    /// A filesystem read, write, flush or directory creation failed.
    IoError,
    /// A compressed blob could not be decoded; on data this engine itself
    /// compressed this indicates on-disk corruption.
    CompressionError,
    /// No blob is stored under the requested identity.
    NotFound,
    /// The durable metadata store failed to open, read or write.
    IndexError,
    /// A structured record read back from the index was malformed.
    SerializationError,
}

} // verus!
