//! The public inputs of the wide 4-ary membership statement, and its
//! refusals.
use vstd::prelude::*;
use crate::field::BabyBear;
use crate::ivc::is_power_of_two;
use crate::membership_descriptor_4ary::{Digest8, membership_witness_4ary, sib_views, spec_root_4ary};

verus! {

/// Why a membership statement is refused.
#[derive(Clone, Debug)]
pub enum MembershipP3Error {
    /// The witness is malformed (depth below 2, a length mismatch, a depth
    /// that is not a power of two, or a position outside `0..4`).
    InvalidWitness(String),
    /// A verifier rejected the proof.
    VerificationFailed(String),
}

impl MembershipP3Error {
    /// The refusal as text: the kind of refusal, then its reason.
    pub fn message(&self) -> (r: String)
        ensures
            match self {
                MembershipP3Error::InvalidWitness(m) => r@ == "invalid membership witness: "@ + m@,
                MembershipP3Error::VerificationFailed(m) => r@ == "p3 membership verification failed: "@ + m@,
            },
    {
        match self {
            MembershipP3Error::InvalidWitness(m) => {
                let mut s = String::from_str("invalid membership witness: ");
                s.append(m.as_str());
                s
            },
            MembershipP3Error::VerificationFailed(m) => {
                let mut s = String::from_str("p3 membership verification failed: ");
                s.append(m.as_str());
                s
            },
        }
    }
}

/// **The sixteen public inputs** `[leaf0..leaf7, root0..root7]` of a
/// membership statement: the leaf and the root its path folds to.
pub fn membership_public_inputs(leaf: Digest8, siblings: &[[Digest8; 3]], positions: &[u8]) -> (r: Result<Vec<BabyBear>, MembershipP3Error>)
    ensures
        r is Ok <==> (siblings@.len() == positions@.len() && siblings@.len() >= 2 && is_power_of_two(siblings@.len())
            && forall|i: int| 0 <= i < positions@.len() ==> #[trigger] positions@[i] < 4),
        r matches Ok(pis) ==> pis@ == leaf@ + spec_root_4ary(leaf@, sib_views(siblings@), positions@, siblings@.len()),
        r matches Err(e) ==> e is InvalidWitness,
{
    if siblings.len() < 2 {
        return Err(MembershipP3Error::InvalidWitness(String::from_str("need at least depth 2 for STARK")));
    }
    if siblings.len() != positions.len() {
        return Err(MembershipP3Error::InvalidWitness(String::from_str("siblings/positions length mismatch")));
    }
    match membership_witness_4ary(leaf, siblings, positions) {
        Ok((_trace, pis)) => Ok(pis),
        Err(m) => Err(MembershipP3Error::InvalidWitness(m)),
    }
}

} // verus!
