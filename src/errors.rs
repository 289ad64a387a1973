//! The structural failures of matrix construction.

use vstd::prelude::*;

verus! {

/// Why a construction of a sparse matrix was refused.
#[derive(Clone, Copy, Debug, PartialEq, Eq, Structural)]
pub enum SprsError {
    /// A stacking operation received no matrix at all.
    EmptyStackingList,
    /// Inner dimensions, or the block dimensions of a grid, disagree.
    IncompatibleDimensions,
    /// Storage orientations disagree where one orientation was required.
    IncompatibleStorages,
    /// A row or a column of a block grid holds no block to take its size from.
    DimensionInference,
    /// Arrays handed to a constructor do not describe a valid compressed matrix.
    BadStructure,
}

} // verus!
