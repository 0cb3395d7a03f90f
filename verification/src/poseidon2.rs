//! Poseidon2 hashing over BabyBear.
//!
//! Every hash in this crate is one *chip absorb*: up to [`CHIP_RATE`] input
//! felts are written into the rate lanes `0..n` of a zero width-24 state, the
//! input count `n` is written into the first capacity lane (lane
//! [`ARITY_TAG_LANE`], domain-separating the arities), the width-24 BabyBear
//! Poseidon2 permutation is applied, and the first [`CHIP_OUT_LANES`] lanes of
//! the result are the digest. The one-felt hashes are lane 0 of the same
//! absorb.
//!
//! The eight-felt sponge [`hash_many_8`] absorbs a preimage of any length in
//! rate-4 chunks (the preimage length in the same capacity lane), then
//! squeezes four lanes, permutes, and squeezes four more.
use vstd::prelude::*;
use crate::field::{BabyBear, BABYBEAR_P};
use p3_field::PrimeField32;
use p3_symmetric::Permutation;

verus! {

/// The permutation width.
pub const POSEIDON2_WIDTH: usize = 24;

/// The most felts one absorb takes.
pub const CHIP_RATE: usize = 16;

/// The number of digest lanes one absorb emits.
pub const CHIP_OUT_LANES: usize = 8;

/// The arity of the 8-felt node compression `absorb(L8 ‖ R8)`.
pub const CHIP_NODE8_ARITY: usize = 16;

/// The state lane that carries the input count.
pub const ARITY_TAG_LANE: usize = 16;

/// The width-24 BabyBear Poseidon2 permutation (the standard round constants
/// of `p3_baby_bear::default_babybear_poseidon2_24`), on the lane values
/// reduced mod `p`.
pub uninterp spec fn poseidon2_permutation(state: Seq<u32>) -> Seq<u32>;

/// Applies `p3_baby_bear::default_babybear_poseidon2_24()` to the state, each
/// lane read through `p3_baby_bear::BabyBear::new` (reduction mod `p`), and
/// returns every output lane's canonical representative
/// (`PrimeField32::as_canonical_u32`, documented to lie in `[0, p)`). The
/// permutation has fixed constants, so its result is named as a function of
/// the input state alone.
#[verifier::external_body]
fn permute(state: [u32; 24]) -> (out: [u32; 24])
    ensures
        out@ == poseidon2_permutation(state@),
        forall|i: int| 0 <= i < 24 ==> #[trigger] out@[i] < BABYBEAR_P,
{
    let perm = p3_baby_bear::default_babybear_poseidon2_24();
    let input: [p3_baby_bear::BabyBear; 24] = state.map(p3_baby_bear::BabyBear::new);
    let output = perm.permute(input);
    output.map(|x| x.as_canonical_u32())
}

/// The width-24 input state of one absorb of `inputs` (at most
/// [`CHIP_RATE`] felts).
pub open spec fn absorb_state(inputs: Seq<BabyBear>) -> Seq<u32> {
    Seq::new(
        POSEIDON2_WIDTH as nat,
        |i: int|
            if i < inputs.len() {
                inputs[i].value()
            } else if i == ARITY_TAG_LANE {
                inputs.len() as u32
            } else {
                0u32
            },
    )
}

/// The eight digest lanes of one absorb of `inputs`.
pub open spec fn spec_absorb(inputs: Seq<BabyBear>) -> Seq<BabyBear> {
    Seq::new(
        CHIP_OUT_LANES as nat,
        |i: int| BabyBear::from_spec(poseidon2_permutation(absorb_state(inputs))[i]),
    )
}

/// The one-felt digest of `inputs`: lane 0 of their absorb.
pub open spec fn spec_hash(inputs: Seq<BabyBear>) -> BabyBear {
    spec_absorb(inputs)[0]
}

/// **`chip_absorb_all_lanes`** — absorb `inputs` (exactly `arity` felts, at
/// most [`CHIP_RATE`]) and return all eight output lanes.
pub fn chip_absorb_all_lanes(arity: usize, inputs: &[BabyBear]) -> (out: [BabyBear; 8])
    requires
        arity <= CHIP_RATE,
        inputs@.len() == arity,
    ensures
        out@ == spec_absorb(inputs@),
{
    let mut state: [u32; 24] = [
        0u32, 0, 0, 0, 0, 0, 0, 0, 0, 0, 0, 0, 0, 0, 0, 0, 0, 0, 0, 0, 0, 0, 0, 0,
    ];
    assert(forall|j: int| 0 <= j < 24 ==> state@[j] == 0);
    let mut i: usize = 0;
    while i < arity
        invariant
            i <= arity <= CHIP_RATE,
            inputs@.len() == arity,
            state@.len() == 24,
            forall|j: int| 0 <= j < i ==> state@[j] == inputs@[j].value(),
            forall|j: int| i <= j < 24 ==> state@[j] == 0,
        decreases arity - i,
    {
        state[i] = inputs[i].as_u32();
        i = i + 1;
    }
    state[ARITY_TAG_LANE] = arity as u32;
    assert(state@ =~= absorb_state(inputs@));
    let out = permute(state);
    let lanes: [BabyBear; 8] = [
        BabyBear::new(out[0]),
        BabyBear::new(out[1]),
        BabyBear::new(out[2]),
        BabyBear::new(out[3]),
        BabyBear::new(out[4]),
        BabyBear::new(out[5]),
        BabyBear::new(out[6]),
        BabyBear::new(out[7]),
    ];
    assert(lanes@ =~= spec_absorb(inputs@));
    lanes
}

/// The one-felt Poseidon2 digest of `inputs` (at most [`CHIP_RATE`] felts):
/// lane 0 of their absorb.
pub fn hash_many(inputs: &[BabyBear]) -> (out: BabyBear)
    requires
        inputs@.len() <= CHIP_RATE,
    ensures
        out == spec_hash(inputs@),
{
    let lanes = chip_absorb_all_lanes(inputs.len(), inputs);
    lanes[0]
}

/// The rate of the eight-felt sponge.
pub const SPONGE_RATE: usize = 4;

/// The sponge's starting state: zero lanes, the preimage length `n` in the
/// capacity lane [`ARITY_TAG_LANE`].
pub open spec fn sponge_init(n: u32) -> Seq<u32> {
    Seq::new(POSEIDON2_WIDTH as nat, |k: int| if k == ARITY_TAG_LANE { n } else { 0u32 })
}

/// `chunk` added into the first rate lanes of `st`, mod `p`.
pub open spec fn add_chunk(st: Seq<u32>, chunk: Seq<BabyBear>) -> Seq<u32> {
    Seq::new(
        st.len(),
        |k: int|
            if k < chunk.len() {
                ((st[k] as int + chunk[k].value() as int) % (BABYBEAR_P as int)) as u32
            } else {
                st[k]
            },
    )
}

/// The end of the chunk that starts at `i`.
pub open spec fn chunk_end(i: int, n: int) -> int {
    if i + SPONGE_RATE < n {
        i + SPONGE_RATE
    } else {
        n
    }
}

/// The state after absorbing `inputs` from `i` on, one rate-4 chunk and one
/// permutation at a time.
pub open spec fn absorb_from(st: Seq<u32>, inputs: Seq<BabyBear>, i: int) -> Seq<u32>
    decreases inputs.len() - i,
{
    if i < 0 || i >= inputs.len() {
        st
    } else {
        absorb_from(
            poseidon2_permutation(add_chunk(st, inputs.subrange(i, chunk_end(i, inputs.len() as int)))),
            inputs,
            chunk_end(i, inputs.len() as int),
        )
    }
}

/// The sponge state once the whole preimage is absorbed (an empty preimage
/// is one permutation of the starting state).
pub open spec fn sponge_absorbed(inputs: Seq<BabyBear>) -> Seq<u32> {
    if inputs.len() == 0 {
        poseidon2_permutation(sponge_init(0))
    } else {
        absorb_from(sponge_init(inputs.len() as u32), inputs, 0)
    }
}

/// The eight squeezed felts: four rate lanes of the absorbed state, then
/// four rate lanes of its permutation.
pub open spec fn spec_sponge8(inputs: Seq<BabyBear>) -> Seq<BabyBear> {
    let st = sponge_absorbed(inputs);
    let st2 = poseidon2_permutation(st);
    Seq::new(
        CHIP_OUT_LANES as nat,
        |k: int|
            if k < SPONGE_RATE {
                BabyBear::from_spec(st[k])
            } else {
                BabyBear::from_spec(st2[k - SPONGE_RATE])
            },
    )
}

/// **A short preimage is one chip absorb**: a preimage of one to four
/// canonical felts is absorbed exactly as [`chip_absorb_all_lanes`] absorbs
/// it, so the sponge's first four lanes are that absorb's.
pub proof fn lemma_short_sponge(inputs: Seq<BabyBear>)
    requires
        1 <= inputs.len() <= SPONGE_RATE,
        forall|k: int| 0 <= k < inputs.len() ==> (#[trigger] inputs[k]).value() < BABYBEAR_P,
    ensures
        sponge_absorbed(inputs) == poseidon2_permutation(absorb_state(inputs)),
        spec_sponge8(inputs).take(4) == spec_absorb(inputs).take(4),
{
    let st = sponge_init(inputs.len() as u32);
    assert(inputs.subrange(0, inputs.len() as int) =~= inputs);
    assert(add_chunk(st, inputs) =~= absorb_state(inputs)) by {
        assert forall|k: int| 0 <= k < inputs.len() implies #[trigger] add_chunk(st, inputs)[k] == absorb_state(inputs)[k] by {
            vstd::arithmetic::div_mod::lemma_small_mod(inputs[k].value() as nat, BABYBEAR_P as nat);
        }
    }
    assert(chunk_end(0, inputs.len() as int) == inputs.len());
    assert(absorb_from(
        poseidon2_permutation(add_chunk(st, inputs.subrange(0, inputs.len() as int))),
        inputs,
        inputs.len() as int,
    ) == poseidon2_permutation(add_chunk(st, inputs)));
    assert(spec_sponge8(inputs).take(4) =~= spec_absorb(inputs).take(4));
}

/// One sponge permutation, on exec lanes.
fn permute_state(st: [u32; 24]) -> (out: [u32; 24])
    ensures
        out@ == poseidon2_permutation(st@),
{
    permute(st)
}

/// **The eight-felt Poseidon2 sponge** of `inputs`: absorb in rate-4
/// chunks (the preimage length in the capacity lane), squeeze four lanes,
/// permute, squeeze four more. For at most four felts the first four lanes
/// are those of one chip absorb, so lane 0 is [`hash_many`] of the same
/// inputs.
pub fn hash_many_8(inputs: &[BabyBear]) -> (out: [BabyBear; 8])
    requires
        inputs@.len() <= u32::MAX,
    ensures
        out@ == spec_sponge8(inputs@),
{
    let n = inputs.len();
    let mut st: [u32; 24] = [
        0u32, 0, 0, 0, 0, 0, 0, 0, 0, 0, 0, 0, 0, 0, 0, 0, 0, 0, 0, 0, 0, 0, 0, 0,
    ];
    st[ARITY_TAG_LANE] = n as u32;
    assert(st@ =~= sponge_init(n as u32));
    if n == 0 {
        st = permute_state(st);
    } else {
        let mut i: usize = 0;
        while i < n
            invariant
                n == inputs@.len(),
                0 < n <= u32::MAX,
                i <= n,
                st@.len() == 24,
                sponge_absorbed(inputs@) == absorb_from(st@, inputs@, i as int),
            decreases n - i,
        {
            let end = if n - i > SPONGE_RATE { i + SPONGE_RATE } else { n };
            let ghost st0 = st@;
            let ghost chunk = inputs@.subrange(i as int, end as int);
            let mut j: usize = i;
            while j < end
                invariant
                    i <= j <= end <= n,
                    end - i <= SPONGE_RATE,
                    n == inputs@.len(),
                    chunk == inputs@.subrange(i as int, end as int),
                    chunk.len() == end - i,
                    st0.len() == 24,
                    st@.len() == 24,
                    forall|k: int| 0 <= k < j - i ==> #[trigger] st@[k] == add_chunk(st0, chunk)[k],
                    forall|k: int| j - i <= k < 24 ==> #[trigger] st@[k] == st0[k],
                decreases end - j,
            {
                let k = j - i;
                assert(chunk[k as int] == inputs@[j as int]);
                let sum: u64 = (st[k] as u64 + inputs[j].as_u32() as u64) % (BABYBEAR_P as u64);
                st[k] = sum as u32;
                j = j + 1;
            }
            assert(st@ =~= add_chunk(st0, chunk));
            st = permute_state(st);
            i = end;
        }
    }
    let ghost absorbed = st@;
    let st2 = permute_state(st);
    let out: [BabyBear; 8] = [
        BabyBear::new(st[0]),
        BabyBear::new(st[1]),
        BabyBear::new(st[2]),
        BabyBear::new(st[3]),
        BabyBear::new(st2[0]),
        BabyBear::new(st2[1]),
        BabyBear::new(st2[2]),
        BabyBear::new(st2[3]),
    ];
    proof {
        assert(out@ =~= spec_sponge8(inputs@));
    }
    out
}

/// The one-felt digest of `first` followed by `rest`: `hash_many([first] ‖ rest)`.
pub fn hash_fact(first: BabyBear, rest: &[BabyBear]) -> (out: BabyBear)
    requires
        rest@.len() < CHIP_RATE,
    ensures
        out == spec_hash(seq![first] + rest@),
{
    let mut inputs: Vec<BabyBear> = Vec::new();
    inputs.push(first);
    let mut i: usize = 0;
    while i < rest.len()
        invariant
            i <= rest@.len() < CHIP_RATE,
            inputs@ =~= seq![first] + rest@.subrange(0, i as int),
        decreases rest@.len() - i,
    {
        inputs.push(rest[i]);
        i = i + 1;
    }
    assert(rest@.subrange(0, rest@.len() as int) =~= rest@);
    hash_many(inputs.as_slice())
}

/// The one-felt digest of four children: `hash_many(children)`.
pub fn hash_4_to_1(children: &[BabyBear; 4]) -> (out: BabyBear)
    ensures
        out == spec_hash(children@),
{
    hash_many(children.as_slice())
}


/// **What one absorb writes**: the input felts fill lanes `0..n` in order,
/// the count `n` sits in the capacity lane, every other lane is zero, and
/// the one-felt hash is lane 0 of the permuted state.
pub proof fn lemma_absorb_layout(inputs: Seq<BabyBear>)
    requires
        inputs.len() <= CHIP_RATE,
    ensures
        absorb_state(inputs).len() == POSEIDON2_WIDTH,
        forall|i: int| 0 <= i < inputs.len() ==> #[trigger] absorb_state(inputs)[i] == inputs[i].value(),
        absorb_state(inputs)[ARITY_TAG_LANE as int] == inputs.len(),
        forall|i: int|
            inputs.len() <= i < POSEIDON2_WIDTH && i != ARITY_TAG_LANE ==> #[trigger] absorb_state(inputs)[i] == 0,
        spec_hash(inputs) == BabyBear::from_spec(poseidon2_permutation(absorb_state(inputs))[0]),
        spec_absorb(inputs).len() == CHIP_OUT_LANES,
{
}

} // verus!
