//! Column indices of the state-transition trace.
use vstd::prelude::*;

verus! {

/// Step number (1-indexed).
pub const STEP: usize = 0;

/// The accumulated hash before this step.
pub const OLD_HASH: usize = 1;

/// The new state root introduced at this step.
pub const NEW_ROOT: usize = 2;

/// The accumulated hash after this step.
pub const NEW_HASH: usize = 3;

} // verus!
