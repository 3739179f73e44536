//! The failures that the engine reports to its caller.

use vstd::prelude::*;

verus! {

/// Why an operation on the volume did not take place.
#[derive(Clone, Copy, Debug, PartialEq, Eq, Structural)]
pub enum FatError {
    /// No free cluster is left for the data.
    DiskFull,
    /// The directory has no free slot and cannot grow.
    DirectoryFull,
    /// The boot image is not exactly one sector long.
    InvalidBootSector,
    /// The directory holds no entry of the requested name.
    NotFound,
    /// The buffer is smaller than the geometry requires, or a cluster chain
    /// in it does not end.
    CorruptImage,
}

} // verus!
