//! The BabyBear prime field `F_p`, `p = 15 * 2^27 + 1 = 2013265921`.
//!
//! A [`BabyBear`] is always held in canonical form: its representative lies
//! in `[0, p)`. Every constructor reduces, and every operation returns a
//! canonical result, so structural equality of two elements is field
//! equality.
use vstd::prelude::*;

verus! {

/// The BabyBear modulus `p = 2^31 - 2^27 + 1`.
pub const BABYBEAR_P: u32 = 2013265921u32;

/// A canonical BabyBear field element.
#[derive(Clone, Copy, Debug, PartialEq, Eq, Structural, Hash)]
pub struct BabyBear {
    val: u32,
}

impl BabyBear {
    /// Canonical form: the representative lies in `[0, p)`.
    #[verifier::type_invariant]
    spec fn canonical(self) -> bool {
        self.val < BABYBEAR_P
    }

    /// The canonical representative of this element, in `[0, p)`.
    pub closed spec fn value(self) -> u32 {
        self.val
    }

    /// The field element whose representative is `v mod p`.
    pub closed spec fn from_spec(v: u32) -> BabyBear {
        BabyBear { val: (v % BABYBEAR_P) as u32 }
    }

    /// `from_spec` reduces its argument.
    pub broadcast proof fn lemma_from_spec_value(v: u32)
        ensures
            #[trigger] BabyBear::from_spec(v).value() == v % BABYBEAR_P,
    {
    }

    /// Elements are determined by their representatives.
    pub proof fn lemma_value_injective(x: BabyBear, y: BabyBear)
        ensures
            (x.value() == y.value()) <==> (x == y),
    {
    }

    /// The additive identity.
    pub open spec fn spec_zero() -> BabyBear {
        BabyBear::from_spec(0)
    }

    /// The additive identity `0`.
    pub fn zero() -> (r: BabyBear)
        ensures
            r == BabyBear::spec_zero(),
            r.value() == 0,
    {
        BabyBear { val: 0 }
    }

    /// The multiplicative identity `1`.
    pub fn one() -> (r: BabyBear)
        ensures
            r == BabyBear::from_spec(1),
            r.value() == 1,
    {
        BabyBear { val: 1 }
    }

    /// The element `v mod p`.
    pub fn new(v: u32) -> (r: BabyBear)
        ensures
            r == BabyBear::from_spec(v),
            r.value() == v % BABYBEAR_P,
    {
        BabyBear { val: v % BABYBEAR_P }
    }

    /// The canonical representative, in `[0, p)`.
    pub fn as_u32(&self) -> (r: u32)
        ensures
            r == self.value(),
            r < BABYBEAR_P,
    {
        proof {
            use_type_invariant(self);
        }
        self.val
    }

    /// Field addition.
    pub fn add_felt(self, rhs: BabyBear) -> (r: BabyBear)
        ensures
            r.value() == (self.value() + rhs.value()) % (BABYBEAR_P as int),
    {
        proof {
            use_type_invariant(&self);
            use_type_invariant(&rhs);
        }
        let s: u64 = self.val as u64 + rhs.val as u64;
        BabyBear { val: (s % (BABYBEAR_P as u64)) as u32 }
    }

    /// Field subtraction.
    pub fn sub_felt(self, rhs: BabyBear) -> (r: BabyBear)
        ensures
            r.value() == (self.value() - rhs.value()) % (BABYBEAR_P as int),
    {
        proof {
            use_type_invariant(&self);
            use_type_invariant(&rhs);
        }
        let s: u64 = self.val as u64 + (BABYBEAR_P as u64) - rhs.val as u64;
        proof {
            vstd::arithmetic::div_mod::lemma_mod_add_multiples_vanish(
                self.val as int - rhs.val as int,
                BABYBEAR_P as int,
            );
        }
        BabyBear { val: (s % (BABYBEAR_P as u64)) as u32 }
    }

    /// Field multiplication.
    pub fn mul_felt(self, rhs: BabyBear) -> (r: BabyBear)
        ensures
            r.value() == (self.value() * rhs.value()) % (BABYBEAR_P as int),
    {
        proof {
            use_type_invariant(&self);
            use_type_invariant(&rhs);
            vstd::arithmetic::mul::lemma_mul_upper_bound(
                self.val as int,
                BABYBEAR_P as int,
                rhs.val as int,
                BABYBEAR_P as int,
            );
        }
        let s: u64 = self.val as u64 * rhs.val as u64;
        BabyBear { val: (s % (BABYBEAR_P as u64)) as u32 }
    }
}

impl core::ops::Add for BabyBear {
    type Output = BabyBear;

    fn add(self, rhs: BabyBear) -> (r: BabyBear) {
        let r = self.add_felt(rhs);
        proof { BabyBear::lemma_value_injective(r, felt_of_int(self.value() + rhs.value())); }
        r
    }
}

impl vstd::std_specs::ops::AddSpecImpl for BabyBear {
    open spec fn obeys_add_spec() -> bool {
        true
    }

    open spec fn add_req(self, rhs: BabyBear) -> bool {
        true
    }

    open spec fn add_spec(self, rhs: BabyBear) -> BabyBear {
        felt_of_int(self.value() + rhs.value())
    }
}

impl core::ops::Sub for BabyBear {
    type Output = BabyBear;

    fn sub(self, rhs: BabyBear) -> (r: BabyBear) {
        let r = self.sub_felt(rhs);
        proof { BabyBear::lemma_value_injective(r, felt_of_int(self.value() - rhs.value())); }
        r
    }
}

impl vstd::std_specs::ops::SubSpecImpl for BabyBear {
    open spec fn obeys_sub_spec() -> bool {
        true
    }

    open spec fn sub_req(self, rhs: BabyBear) -> bool {
        true
    }

    open spec fn sub_spec(self, rhs: BabyBear) -> BabyBear {
        felt_of_int(self.value() - rhs.value())
    }
}

impl core::ops::Mul for BabyBear {
    type Output = BabyBear;

    fn mul(self, rhs: BabyBear) -> (r: BabyBear) {
        let r = self.mul_felt(rhs);
        proof { BabyBear::lemma_value_injective(r, felt_of_int(self.value() * rhs.value())); }
        r
    }
}

impl vstd::std_specs::ops::MulSpecImpl for BabyBear {
    open spec fn obeys_mul_spec() -> bool {
        true
    }

    open spec fn mul_req(self, rhs: BabyBear) -> bool {
        true
    }

    open spec fn mul_spec(self, rhs: BabyBear) -> BabyBear {
        felt_of_int(self.value() * rhs.value())
    }
}

impl core::ops::AddAssign for BabyBear {
    fn add_assign(&mut self, rhs: BabyBear)
        ensures
            final(self).value() == (old(self).value() + rhs.value()) % (BABYBEAR_P as int),
    {
        *self = self.add_felt(rhs);
    }
}

/// The field element `x mod p` of an integer `x`.
pub closed spec fn felt_of_int(x: int) -> BabyBear {
    BabyBear { val: (x % (BABYBEAR_P as int)) as u32 }
}

/// `felt_of_int` reduces its argument into `[0, p)`.
pub broadcast proof fn lemma_felt_of_int_value(x: int)
    ensures
        #[trigger] felt_of_int(x).value() == x % (BABYBEAR_P as int),
{
}

} // verus!
