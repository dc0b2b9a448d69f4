//! Error kinds shared by the store.

use vstd::prelude::*;

verus! {

/// Why a write to an index file was refused.
#[derive(Clone, Copy, PartialEq, Eq, Structural, Debug)]
pub enum StoreError {
    /// The file would grow past the largest length an offset can address.
    FileTooLarge,
    /// The position lies in the part of the file that was already flushed.
    BehindFlushBoundary,
    /// The position lies past the end of what was written.
    PastEnd,
}

/// Why an index file could not be read.
#[derive(Clone, Copy, PartialEq, Eq, Structural, Debug)]
pub enum LoadError {
    /// An offset points outside the file, a chunk chain does not end, or a
    /// string key is not UTF-8.
    Corrupt,
    /// A record starts inside the file and ends after it.
    Truncated,
}

/// The errors that the store hands to its callers.
#[derive(Debug)]
pub enum WaCustomError {
    InvalidParams,
    DatabaseError(String),
    SerializationError(StoreError),
    DeserializationError(LoadError),
    IoError,
    DistanceError,
    QuantizationError,
}

} // verus!
