use vstd::prelude::*;

verus! {

/// Failure taxonomy of the storage engine.
///
/// Absence of a series or of a bucket is never an error: lookups report it
/// through `Option` or an empty result instead.
#[derive(Debug, Clone, Copy, PartialEq, Eq, Structural)]
pub enum DbError {
    /// The underlying store failed a read or a write.
    StorageError,
    /// A persisted value violates its structural invariant: an id cell whose
    /// length is not 8 bytes, or a bucket blob whose length does not match
    /// its bitmap.
    CorruptData,
    /// A timestamp whose bucket/offset arithmetic would overflow.
    InvalidTimestamp,
}

} // verus!
