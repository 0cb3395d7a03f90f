//! Column indices of the 4-ary Merkle membership trace.
use vstd::prelude::*;

verus! {

/// The running node.
pub const CURRENT: usize = 0;

/// First sibling.
pub const SIB0: usize = 1;

/// Second sibling.
pub const SIB1: usize = 2;

/// Third sibling.
pub const SIB2: usize = 3;

/// Position of the running node among the four children.
pub const POSITION: usize = 4;

/// The parent.
pub const PARENT: usize = 5;

} // verus!
