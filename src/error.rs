//! Errors of the execution core.
use vstd::prelude::*;

verus! {

/// What can go wrong while planning or converting.
#[derive(Debug, Clone, Copy, PartialEq, Eq, Structural)]
pub enum CubeError {
    /// The worker's physical plan has no worker marker.
    NoWorkerMarker,
    /// A column looked up by name is not in the schema.
    ColumnNotFound,
    /// A wire blob holds no batch.
    ZeroBatches,
    /// A wire blob holds more than one batch.
    ManyBatches,
    /// A wire blob could not be read or written.
    Codec,
    /// A column type that row conversion does not handle.
    UnsupportedType,
    /// A cell that does not fit its column's type, or whose converted value
    /// would not fit in 64 bits.
    BadCell,
    /// No local file is known for a remote file that the scan needs.
    MissingRemotePath,
    /// No batches were handed in for an in-memory chunk.
    MissingChunkBatches,
    /// The batches handed in for an in-memory chunk are empty.
    EmptyChunkBatches,
}

} // verus!
