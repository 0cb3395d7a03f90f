//! Column indices of the multi-Turn trace.
use vstd::prelude::*;

verus! {

/// Step / turn index (0-indexed).
pub const STEP: usize = 0;

/// Collapsed turn-hash digest.
pub const TURN_HASH: usize = 1;

/// Pre-state graph root.
pub const PRE_STATE: usize = 2;

/// Post-state graph root.
pub const POST_STATE: usize = 3;

/// Collapsed previous-receipt-hash digest (inbound link).
pub const PREV_RECEIPT: usize = 4;

/// Bilateral-consistency flag (must be 1).
pub const CONSISTENT: usize = 5;

/// Derived receipt hash for this Turn.
pub const RECEIPT_HASH: usize = 6;

/// Sequence accumulator before this Turn.
pub const ACC_IN: usize = 7;

/// Sequence accumulator after this Turn.
pub const ACC_OUT: usize = 8;

} // verus!
