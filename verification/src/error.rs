//! Why an operation of the library gives no result.

use vstd::prelude::*;

verus! {

/// The failures of the distance engine, of the spatial index and of the
/// predictor.
#[derive(Clone, Copy, Debug, PartialEq, Eq, Structural)]
pub enum Error {
    /// No compute device was found.
    DeviceUnavailable,
    /// The kernel did not build.
    CompileFailure,
    /// A buffer is larger than the backend can hold.
    BufferAllocationFailure,
    /// A copy between host and device failed.
    TransferFailure,
    /// A distance is no number.
    NonFiniteDistance,
    /// A window does not lie in its corpus, or not within the 32-bit indices
    /// of the device.
    InvalidDescriptor,
    /// The vectors to index do not all have one dimension.
    RaggedDimensions,
    /// The query vector has another dimension than the index.
    WrongDimension,
    /// There is no neighbour to go by: the index is empty, or none was
    /// asked for.
    NoNeighbors,
}

} // verus!
