//! Compressed sparse matrices (CSR and CSC) and their construction from
//! other matrices: stacking along either dimension and assembly from a grid
//! of blocks, with the structural invariants of the storage proved to hold.

use vstd::prelude::*;

pub mod block;
pub mod construct;
pub mod csmat;
pub mod errors;
pub mod range;

verus! {

} // verus!
