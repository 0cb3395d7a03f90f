//! The IVC hash chains: the Poseidon2 accumulated hash over a walk of state
//! roots (one felt and eight felts wide), the state-transition trace that
//! proves one chain step per row, and the multi-Turn summary hashes.
use vstd::prelude::*;
use crate::field::BabyBear;
use crate::poseidon2::{hash_many, hash_many_8, spec_sponge8, spec_hash, absorb_state, ARITY_TAG_LANE};

pub mod st_col;
pub mod mt_col;

verus! {

/// Maximum delegation chain depth (fold steps).
pub const MAX_FOLD_DEPTH: u32 = 16;

/// Domain separation tag of the accumulated hash ("IVC0").
pub const IVC_DOMAIN_TAG: u32 = 0x49564300u32;

/// Number of felts of the wide accumulated hash.
pub const ACCUMULATED_HASH_WIDTH: usize = 8;

/// A wide accumulated hash: eight felts.
pub type AccumulatedHash = [BabyBear; 8];

/// Width of the state-transition trace: `[step, old_hash, new_root, new_hash]`.
pub const STATE_TRANSITION_WIDTH: usize = 4;

/// Domain separation tag of the per-Turn receipt hash ("TRCP").
pub const TURN_RECEIPT_DOMAIN_TAG: u32 = 0x54524350u32;

/// Domain separation tag of the multi-Turn accumulator ("TACC").
pub const TURN_ACC_DOMAIN_TAG: u32 = 0x54414343u32;

/// Maximum number of Turns folded into one multi-Turn attestation.
pub const MAX_TURN_CHAIN_LEN: u32 = 64;

/// Width of the per-Turn aggregate digests (`turn_hash`, `previous_receipt_hash`).
pub const AGGREGATE_DIGEST_WIDTH: usize = 4;

/// Domain separation tag of the turn-hash collapse ("THDH").
pub const TURN_DIGEST_TAG_TURN_HASH: u32 = 0x54484448u32;

/// Width of the multi-Turn trace.
pub const MULTI_TURN_WIDTH: usize = 9;

/// The felt of a `u32`, reduced mod `p`.
pub open spec fn felt(v: u32) -> BabyBear {
    BabyBear::from_spec(v)
}

/// The wide base case: the eight-felt sponge of `[IVC0, initial_root, 0]`.
pub open spec fn spec_initial_wide(initial_root: BabyBear) -> Seq<BabyBear> {
    spec_sponge8(seq![felt(IVC_DOMAIN_TAG), initial_root, felt(0)])
}

/// The one-felt base case: lane 0 of the wide one.
pub open spec fn spec_initial(initial_root: BabyBear) -> BabyBear {
    spec_initial_wide(initial_root)[0]
}

/// One chain step: `hash[IVC0, old_hash, new_root, step]`.
pub open spec fn spec_extend(old_hash: BabyBear, new_root: BabyBear, step: u32) -> BabyBear {
    spec_hash(seq![felt(IVC_DOMAIN_TAG), old_hash, new_root, felt(step)])
}

/// One wide chain step: the eight-felt sponge of `[IVC0, old_hash[0..8], new_root, step]`.
pub open spec fn spec_extend_wide(old_hash: Seq<BabyBear>, new_root: BabyBear, step: u32) -> Seq<BabyBear> {
    spec_sponge8(seq![felt(IVC_DOMAIN_TAG)] + old_hash + seq![new_root, felt(step)])
}

/// The accumulated hash after the first `i` roots of the walk; step `j`
/// (1-indexed) absorbs the counter `j` as a `u32`.
pub open spec fn spec_chain(initial_root: BabyBear, roots: Seq<BabyBear>, i: nat) -> BabyBear
    decreases i,
{
    if i == 0 {
        spec_initial(initial_root)
    } else {
        spec_extend(spec_chain(initial_root, roots, (i - 1) as nat), roots[i - 1], i as u32)
    }
}

/// The wide accumulated hash after the first `i` roots of the walk.
pub open spec fn spec_chain_wide(initial_root: BabyBear, roots: Seq<BabyBear>, i: nat) -> Seq<BabyBear>
    decreases i,
{
    if i == 0 {
        spec_initial_wide(initial_root)
    } else {
        spec_extend_wide(spec_chain_wide(initial_root, roots, (i - 1) as nat), roots[i - 1], i as u32)
    }
}

/// The one-felt base case of the accumulated hash: lane 0 of
/// [`initial_accumulated_hash_wide`].
pub fn initial_accumulated_hash(initial_root: BabyBear) -> (r: BabyBear)
    ensures
        r == spec_initial(initial_root),
{
    let wide = initial_accumulated_hash_wide(initial_root);
    wide[0]
}

/// The wide base case of the accumulated hash: the eight-felt sponge of
/// `[IVC0, initial_root, 0]`.
pub fn initial_accumulated_hash_wide(initial_root: BabyBear) -> (r: AccumulatedHash)
    ensures
        r@ == spec_initial_wide(initial_root),
{
    let ins = [BabyBear::new(IVC_DOMAIN_TAG), initial_root, BabyBear::zero()];
    assert(ins@ =~= seq![felt(IVC_DOMAIN_TAG), initial_root, felt(0)]);
    hash_many_8(ins.as_slice())
}

/// Extend the accumulated hash by one step: `hash[IVC0, old, new_root, step]`.
pub fn extend_accumulated_hash(old_hash: BabyBear, new_root: BabyBear, step_count: u32) -> (r: BabyBear)
    ensures
        r == spec_extend(old_hash, new_root, step_count),
        r == spec_hash(seq![BabyBear::from_spec(IVC_DOMAIN_TAG), old_hash, new_root, BabyBear::from_spec(step_count)]),
{
    let ins = [BabyBear::new(IVC_DOMAIN_TAG), old_hash, new_root, BabyBear::new(step_count)];
    assert(ins@ =~= seq![felt(IVC_DOMAIN_TAG), old_hash, new_root, felt(step_count)]);
    hash_many(ins.as_slice())
}

/// Extend the wide accumulated hash by one step, absorbing all eight felts
/// of the old hash.
pub fn extend_accumulated_hash_wide(old_hash: &AccumulatedHash, new_root: BabyBear, step_count: u32) -> (r: AccumulatedHash)
    ensures
        r@ == spec_extend_wide(old_hash@, new_root, step_count),
{
    let ins = [
        BabyBear::new(IVC_DOMAIN_TAG),
        old_hash[0],
        old_hash[1],
        old_hash[2],
        old_hash[3],
        old_hash[4],
        old_hash[5],
        old_hash[6],
        old_hash[7],
        new_root,
        BabyBear::new(step_count),
    ];
    assert(ins@ =~= seq![felt(IVC_DOMAIN_TAG)] + old_hash@ + seq![new_root, felt(step_count)]);
    hash_many_8(ins.as_slice())
}

/// Recompute the wide accumulated hash over a whole walk of roots.
pub fn recompute_accumulated_hash_wide(initial_root: BabyBear, roots: &[BabyBear]) -> (r: AccumulatedHash)
    ensures
        r@ == spec_chain_wide(initial_root, roots@, roots@.len()),
{
    let mut hash = initial_accumulated_hash_wide(initial_root);
    let mut i: usize = 0;
    while i < roots.len()
        invariant
            i <= roots@.len(),
            hash@ == spec_chain_wide(initial_root, roots@, i as nat),
        decreases roots@.len() - i,
    {
        hash = extend_accumulated_hash_wide(&hash, roots[i], (i + 1) as u32);
        i = i + 1;
    }
    hash
}

/// Recompute the one-felt accumulated hash over a whole walk of roots.
pub fn recompute_accumulated_hash(initial_root: BabyBear, roots: &[BabyBear]) -> (r: BabyBear)
    ensures
        r == spec_chain(initial_root, roots@, roots@.len()),
{
    let mut hash = initial_accumulated_hash(initial_root);
    let mut i: usize = 0;
    while i < roots.len()
        invariant
            i <= roots@.len(),
            hash == spec_chain(initial_root, roots@, i as nat),
        decreases roots@.len() - i,
    {
        hash = extend_accumulated_hash(hash, roots[i], (i + 1) as u32);
        i = i + 1;
    }
    hash
}

/// `t` is a power of two.
pub open spec fn is_power_of_two(t: nat) -> bool
    decreases t,
{
    if t <= 1 {
        t == 1
    } else {
        t % 2 == 0 && is_power_of_two(t / 2)
    }
}

/// Whether `n` is a power of two.
pub fn usize_is_power_of_two(n: usize) -> (b: bool)
    ensures
        b == is_power_of_two(n as nat),
{
    let mut m = n;
    while m > 1
        invariant
            is_power_of_two(n as nat) == is_power_of_two(m as nat),
        decreases m,
    {
        if m % 2 != 0 {
            return false;
        }
        m = m / 2;
    }
    m == 1
}

/// Row `i` of the state-transition trace: `[i + 1, acc_i, root_i, acc_(i+1)]`.
pub open spec fn st_row(initial_root: BabyBear, roots: Seq<BabyBear>, i: int) -> Seq<BabyBear> {
    seq![
        felt((i + 1) as u32),
        spec_chain(initial_root, roots, i as nat),
        roots[i],
        spec_chain(initial_root, roots, (i + 1) as nat),
    ]
}

/// **The state-transition trace** of a walk of roots: one row per step,
/// `[step, old_hash, new_root, new_hash]` with
/// `new_hash == extend_accumulated_hash(old_hash, new_root, step)`, padded
/// with copies of the last row to the next power of two (at least two);
/// and the public inputs `[initial_root, final_root, step_count,
/// accumulated_hash]`.
pub fn generate_state_transition_trace(initial_root: BabyBear, new_roots: &[BabyBear]) -> (r: (Vec<Vec<BabyBear>>, Vec<BabyBear>))
    requires
        new_roots@.len() >= 1,
        new_roots@.len() <= usize::MAX / 2 + 1,
    ensures
        ({
            let n = new_roots@.len();
            let (trace, public_inputs) = r;
            &&& trace@.len() >= 2
            &&& trace@.len() >= n
            &&& is_power_of_two(trace@.len())
            &&& (trace@.len() == 2 || trace@.len() / 2 < n)
            &&& forall|i: int| 0 <= i < n ==> (#[trigger] trace@[i])@ == st_row(initial_root, new_roots@, i)
            &&& forall|i: int| n <= i < trace@.len() ==> (#[trigger] trace@[i])@ == st_row(initial_root, new_roots@, n - 1)
            &&& public_inputs@ == seq![
                initial_root,
                new_roots@[n - 1],
                felt(n as u32),
                spec_chain(initial_root, new_roots@, n),
            ]
        }),
{
    let n = new_roots.len();
    let mut trace: Vec<Vec<BabyBear>> = Vec::new();
    let mut current_hash = initial_accumulated_hash(initial_root);
    let mut i: usize = 0;
    while i < n
        invariant
            n == new_roots@.len(),
            i <= n,
            trace@.len() == i,
            current_hash == spec_chain(initial_root, new_roots@, i as nat),
            forall|j: int| 0 <= j < i ==> (#[trigger] trace@[j])@ == st_row(initial_root, new_roots@, j),
        decreases n - i,
    {
        let new_root = new_roots[i];
        let step = (i + 1) as u32;
        let new_hash = extend_accumulated_hash(current_hash, new_root, step);
        let mut row: Vec<BabyBear> = Vec::new();
        row.push(BabyBear::new(step));
        row.push(current_hash);
        row.push(new_root);
        row.push(new_hash);
        assert(row@ =~= st_row(initial_root, new_roots@, i as int));
        trace.push(row);
        current_hash = new_hash;
        i = i + 1;
    }
    let final_root = new_roots[n - 1];
    let step_count = n as u32;
    let mut target: usize = 2;
    assert(is_power_of_two(2)) by {
        reveal_with_fuel(is_power_of_two, 2);
    }
    while target < n
        invariant
            n <= usize::MAX / 2 + 1,
            target >= 2,
            is_power_of_two(target as nat),
            target == 2 || target / 2 < n,
        decreases usize::MAX - target,
    {
        assert(((target * 2) as nat) / 2 == target as nat);
        target = target * 2;
    }
    let last_row = vstd::slice::slice_to_vec(trace[n - 1].as_slice());
    while trace.len() < target
        invariant
            n == new_roots@.len(),
            n >= 1,
            trace@.len() >= n,
            trace@.len() <= target,
            target >= n,
            target >= 2,
            is_power_of_two(target as nat),
            target == 2 || target / 2 < n,
            last_row@ == st_row(initial_root, new_roots@, n - 1),
            forall|j: int| 0 <= j < n ==> (#[trigger] trace@[j])@ == st_row(initial_root, new_roots@, j),
            forall|j: int| n <= j < trace@.len() ==> (#[trigger] trace@[j])@ == st_row(initial_root, new_roots@, n - 1),
        decreases target - trace@.len(),
    {
        trace.push(vstd::slice::slice_to_vec(last_row.as_slice()));
    }
    let mut public_inputs: Vec<BabyBear> = Vec::new();
    public_inputs.push(initial_root);
    public_inputs.push(final_root);
    public_inputs.push(BabyBear::new(step_count));
    public_inputs.push(current_hash);
    assert(public_inputs@ =~= seq![
        initial_root,
        new_roots@[n - 1],
        felt(n as u32),
        spec_chain(initial_root, new_roots@, n as nat),
    ]);
    (trace, public_inputs)
}

/// **The trace is the hash chain**: every row of the state-transition trace
/// satisfies the step relation, consecutive rows chain, row 0 starts at the
/// base case, and the last public input is the recomputed accumulated hash.
pub proof fn lemma_trace_is_hash_chain(initial_root: BabyBear, roots: Seq<BabyBear>, i: int)
    requires
        0 <= i < roots.len(),
    ensures
        st_row(initial_root, roots, i)[3] == spec_extend(
            st_row(initial_root, roots, i)[1],
            st_row(initial_root, roots, i)[2],
            (i + 1) as u32,
        ),
        i + 1 < roots.len() ==> st_row(initial_root, roots, i + 1)[1] == st_row(initial_root, roots, i)[3],
        i == 0 ==> st_row(initial_root, roots, i)[1] == spec_initial(initial_root),
{
}

/// Per-Turn summary projected from one Turn's aggregate public outputs.
#[derive(Clone, Copy, Debug, PartialEq, Eq)]
pub struct TurnTransitionSummary {
    /// Canonical Turn identity digest (four felts).
    pub turn_hash: [BabyBear; 4],
    /// Graph state root the Turn consumed.
    pub pre_state_root: BabyBear,
    /// Graph state root the Turn produced.
    pub post_state_root: BabyBear,
    /// The receipt-chain link this Turn extends, encoded `[link, 0, 0, 0]`
    /// (all zero for the genesis Turn).
    pub previous_receipt_hash: [BabyBear; 4],
    /// The bilateral-consistency flag (1 = consistent).
    pub bilateral_consistent: BabyBear,
}

/// The domain-separated collapse of a four-felt digest:
/// `hash[tag, h0, h1, h2, h3]`.
pub open spec fn spec_digest4(tag: u32, h: Seq<BabyBear>) -> BabyBear {
    spec_hash(seq![felt(tag)] + h)
}

/// Collapse a four-felt digest to one felt with domain separation.
fn digest4(tag: u32, h: &[BabyBear; 4]) -> (r: BabyBear)
    ensures
        r == spec_digest4(tag, h@),
{
    let ins = [BabyBear::new(tag), h[0], h[1], h[2], h[3]];
    assert(ins@ =~= seq![felt(tag)] + h@);
    hash_many(ins.as_slice())
}

impl TurnTransitionSummary {
    /// The one-felt collapse of the turn hash: `hash[THDH, turn_hash]`.
    pub fn turn_hash_digest(&self) -> (r: BabyBear)
        ensures
            r == spec_digest4(TURN_DIGEST_TAG_TURN_HASH, self.turn_hash@),
            r == spec_hash(
                seq![
                    BabyBear::from_spec(TURN_DIGEST_TAG_TURN_HASH),
                    self.turn_hash[0],
                    self.turn_hash[1],
                    self.turn_hash[2],
                    self.turn_hash[3],
                ],
            ),
    {
        let r = digest4(TURN_DIGEST_TAG_TURN_HASH, &self.turn_hash);
        assert(seq![felt(TURN_DIGEST_TAG_TURN_HASH)] + self.turn_hash@ =~= seq![
            BabyBear::from_spec(TURN_DIGEST_TAG_TURN_HASH),
            self.turn_hash[0],
            self.turn_hash[1],
            self.turn_hash[2],
            self.turn_hash[3],
        ]);
        r
    }

    /// The one-felt receipt link this Turn extends: slot 0 of
    /// `previous_receipt_hash`.
    pub fn previous_receipt_link(&self) -> (r: BabyBear)
        ensures
            r == self.previous_receipt_hash@[0],
    {
        self.previous_receipt_hash[0]
    }

    /// The canonical four-felt encoding `[link, 0, 0, 0]` of a receipt link.
    pub fn encode_receipt_link(link: BabyBear) -> (r: [BabyBear; 4])
        ensures
            r@ == seq![link, felt(0), felt(0), felt(0)],
    {
        let z = BabyBear::zero();
        let r = [link, z, z, z];
        assert(r@ =~= seq![link, felt(0), felt(0), felt(0)]);
        r
    }
}

/// **Decoding undoes encoding**: the receipt link of a Turn whose
/// `previous_receipt_hash` is the canonical encoding of `link` is `link`.
pub proof fn lemma_receipt_link_roundtrip(link: BabyBear, s: TurnTransitionSummary)
    requires
        s.previous_receipt_hash@ == seq![link, felt(0), felt(0), felt(0)],
    ensures
        s.previous_receipt_hash@[0] == link,
{
}

/// The receipt hash of one Turn:
/// `hash[TRCP, turn_hash_digest, pre, post, prev_link, consistent]`.
pub open spec fn spec_turn_receipt_hash(
    turn_hash_digest: BabyBear,
    pre_state: BabyBear,
    post_state: BabyBear,
    prev_receipt_link: BabyBear,
    bilateral_consistent: BabyBear,
) -> BabyBear {
    spec_hash(
        seq![
            felt(TURN_RECEIPT_DOMAIN_TAG),
            turn_hash_digest,
            pre_state,
            post_state,
            prev_receipt_link,
            bilateral_consistent,
        ],
    )
}

/// The receipt hash of one Turn, which the next Turn's receipt link must equal.
pub fn turn_receipt_hash(
    turn_hash_digest: BabyBear,
    pre_state: BabyBear,
    post_state: BabyBear,
    prev_receipt_link: BabyBear,
    bilateral_consistent: BabyBear,
) -> (r: BabyBear)
    ensures
        r == spec_turn_receipt_hash(turn_hash_digest, pre_state, post_state, prev_receipt_link, bilateral_consistent),
{
    let ins = [
        BabyBear::new(TURN_RECEIPT_DOMAIN_TAG),
        turn_hash_digest,
        pre_state,
        post_state,
        prev_receipt_link,
        bilateral_consistent,
    ];
    assert(ins@ =~= seq![
        felt(TURN_RECEIPT_DOMAIN_TAG),
        turn_hash_digest,
        pre_state,
        post_state,
        prev_receipt_link,
        bilateral_consistent,
    ]);
    hash_many(ins.as_slice())
}

/// Extend the multi-Turn accumulator by one Turn:
/// `hash[TACC, acc_in, receipt_hash, step]`.
pub fn extend_turn_accumulator(acc_in: BabyBear, receipt_hash: BabyBear, step: u32) -> (r: BabyBear)
    ensures
        r == spec_hash(seq![felt(TURN_ACC_DOMAIN_TAG), acc_in, receipt_hash, felt(step)]),
{
    let ins = [BabyBear::new(TURN_ACC_DOMAIN_TAG), acc_in, receipt_hash, BabyBear::new(step)];
    assert(ins@ =~= seq![felt(TURN_ACC_DOMAIN_TAG), acc_in, receipt_hash, felt(step)]);
    hash_many(ins.as_slice())
}


/// **A chain step absorbs the step counter**: one step of the accumulated
/// hash is the Poseidon2 hash of the four felts `[IVC0, old_hash, new_root,
/// step]`, in that order; the absorbed state carries the counter in lane 3
/// and the input count 4 in its capacity lane, so two steps that differ
/// only in their counter (mod `p`) hash different states.
pub proof fn lemma_extend_absorbs_step(old_hash: BabyBear, new_root: BabyBear, s1: u32, s2: u32)
    ensures
        spec_extend(old_hash, new_root, s1) == spec_hash(
            seq![BabyBear::from_spec(IVC_DOMAIN_TAG), old_hash, new_root, BabyBear::from_spec(s1)],
        ),
        absorb_state(seq![BabyBear::from_spec(IVC_DOMAIN_TAG), old_hash, new_root, BabyBear::from_spec(s1)])[3] == s1
            % crate::field::BABYBEAR_P,
        absorb_state(seq![BabyBear::from_spec(IVC_DOMAIN_TAG), old_hash, new_root, BabyBear::from_spec(s1)])[ARITY_TAG_LANE as int]
            == 4,
        s1 % crate::field::BABYBEAR_P != s2 % crate::field::BABYBEAR_P ==> absorb_state(
            seq![BabyBear::from_spec(IVC_DOMAIN_TAG), old_hash, new_root, BabyBear::from_spec(s1)],
        ) != absorb_state(seq![BabyBear::from_spec(IVC_DOMAIN_TAG), old_hash, new_root, BabyBear::from_spec(s2)]),
{
    BabyBear::lemma_from_spec_value(s1);
    BabyBear::lemma_from_spec_value(s2);
    let a = absorb_state(seq![BabyBear::from_spec(IVC_DOMAIN_TAG), old_hash, new_root, BabyBear::from_spec(s1)]);
    let b = absorb_state(seq![BabyBear::from_spec(IVC_DOMAIN_TAG), old_hash, new_root, BabyBear::from_spec(s2)]);
    assert(a[3] == s1 % crate::field::BABYBEAR_P);
    assert(b[3] == s2 % crate::field::BABYBEAR_P);
    assert(seq![BabyBear::from_spec(IVC_DOMAIN_TAG)] + seq![old_hash, new_root, felt(s1)] =~= seq![
        BabyBear::from_spec(IVC_DOMAIN_TAG),
        old_hash,
        new_root,
        BabyBear::from_spec(s1),
    ]);
}

/// **The turn-hash digest binds all four turn-hash felts**: it is the
/// Poseidon2 hash of `[THDH, h0, h1, h2, h3]`; the absorbed state carries
/// `h3` in lane 4 and the input count 5 in its capacity lane, so two turn
/// hashes that differ in their last felt hash different states.
pub proof fn lemma_turn_digest_binds_all_felts(s: TurnTransitionSummary, t: TurnTransitionSummary)
    requires
        s.turn_hash@.len() == 4,
    ensures
        spec_digest4(TURN_DIGEST_TAG_TURN_HASH, s.turn_hash@) == spec_hash(
            seq![
                BabyBear::from_spec(TURN_DIGEST_TAG_TURN_HASH),
                s.turn_hash[0],
                s.turn_hash[1],
                s.turn_hash[2],
                s.turn_hash[3],
            ],
        ),
        absorb_state(seq![BabyBear::from_spec(TURN_DIGEST_TAG_TURN_HASH)] + s.turn_hash@)[4] == s.turn_hash[3].value(),
        absorb_state(seq![BabyBear::from_spec(TURN_DIGEST_TAG_TURN_HASH)] + s.turn_hash@)[ARITY_TAG_LANE as int] == 5,
        s.turn_hash[3] != t.turn_hash[3] ==> absorb_state(seq![BabyBear::from_spec(TURN_DIGEST_TAG_TURN_HASH)] + s.turn_hash@)
            != absorb_state(seq![BabyBear::from_spec(TURN_DIGEST_TAG_TURN_HASH)] + t.turn_hash@),
{
    let hs = seq![BabyBear::from_spec(TURN_DIGEST_TAG_TURN_HASH)] + s.turn_hash@;
    let ht = seq![BabyBear::from_spec(TURN_DIGEST_TAG_TURN_HASH)] + t.turn_hash@;
    assert(hs =~= seq![
        BabyBear::from_spec(TURN_DIGEST_TAG_TURN_HASH),
        s.turn_hash[0],
        s.turn_hash[1],
        s.turn_hash[2],
        s.turn_hash[3],
    ]);
    assert(absorb_state(hs)[4] == hs[4].value());
    if s.turn_hash[3] != t.turn_hash[3] {
        assert(ht[4] == t.turn_hash[3]);
        BabyBear::lemma_value_injective(s.turn_hash[3], t.turn_hash[3]);
        assert(absorb_state(ht)[4] == ht[4].value());
    }
}


/// **What the accumulator hashes, felt by felt**: the wide base case is the
/// eight-felt sponge of `[IVC0, initial_root, 0]` and the one-felt base case
/// its first lane; a wide step is the sponge of the eleven felts
/// `[IVC0, old[0..8], new_root, step]`; a Turn receipt hashes
/// `[TRCP, digest, pre, post, prev_link, consistent]`.
pub proof fn lemma_accumulator_preimages(
    initial_root: BabyBear,
    old: Seq<BabyBear>,
    new_root: BabyBear,
    step: u32,
    digest: BabyBear,
    pre: BabyBear,
    post: BabyBear,
    link: BabyBear,
    consistent: BabyBear,
)
    requires
        old.len() == 8,
    ensures
        spec_initial_wide(initial_root) == spec_sponge8(
            seq![BabyBear::from_spec(IVC_DOMAIN_TAG), initial_root, BabyBear::from_spec(0)],
        ),
        spec_initial(initial_root) == spec_sponge8(
            seq![BabyBear::from_spec(IVC_DOMAIN_TAG), initial_root, BabyBear::from_spec(0)],
        )[0],
        spec_extend_wide(old, new_root, step) == spec_sponge8(
            seq![
                BabyBear::from_spec(IVC_DOMAIN_TAG),
                old[0],
                old[1],
                old[2],
                old[3],
                old[4],
                old[5],
                old[6],
                old[7],
                new_root,
                BabyBear::from_spec(step),
            ],
        ),
        spec_turn_receipt_hash(digest, pre, post, link, consistent) == spec_hash(
            seq![BabyBear::from_spec(TURN_RECEIPT_DOMAIN_TAG), digest, pre, post, link, consistent],
        ),
{
    assert(seq![felt(IVC_DOMAIN_TAG)] + old + seq![new_root, felt(step)] =~= seq![
        BabyBear::from_spec(IVC_DOMAIN_TAG),
        old[0],
        old[1],
        old[2],
        old[3],
        old[4],
        old[5],
        old[6],
        old[7],
        new_root,
        BabyBear::from_spec(step),
    ]);
}

} // verus!
