//! One-felt 4-ary Merkle membership: the parent of a level, the witness of
//! a path, and its trace (one level per row: `[current, sib0, sib1, sib2,
//! position, parent]`, public inputs `[leaf, root]`).
use vstd::prelude::*;
use crate::field::{BabyBear, BABYBEAR_P};
use crate::poseidon2::{hash_4_to_1, spec_hash};

pub mod col;

verus! {

/// The tree depth (levels from leaf to root).
pub const TREE_DEPTH: usize = 16;

/// Trace width of the membership trace.
pub const MERKLE_AIR_WIDTH: usize = 6;

/// The four children at a level: `current` at `position`, the siblings in
/// order around it.
pub open spec fn children_of(current: BabyBear, position: int, siblings: Seq<BabyBear>) -> Seq<BabyBear> {
    Seq::new(
        4,
        |j: int|
            if j < position {
                siblings[j]
            } else if j == position {
                current
            } else {
                siblings[j - 1]
            },
    )
}

/// The parent of a level: `hash[children]`, or zero for a position past 3.
pub open spec fn spec_parent(current: BabyBear, position: u8, siblings: Seq<BabyBear>) -> BabyBear {
    if position > 3 {
        BabyBear::spec_zero()
    } else {
        spec_hash(children_of(current, position as int, siblings))
    }
}

/// **The 4-ary parent** of `current` at `position` among its three
/// siblings, hashed with `hash_4_to_1`; zero for a position past 3.
pub fn compute_parent_poseidon2(current: BabyBear, position: u8, siblings: &[BabyBear; 3]) -> (r: BabyBear)
    ensures
        r == spec_parent(current, position, siblings@),
{
    if position > 3 {
        return BabyBear::zero();
    }
    let children = if position == 0 {
        [current, siblings[0], siblings[1], siblings[2]]
    } else if position == 1 {
        [siblings[0], current, siblings[1], siblings[2]]
    } else if position == 2 {
        [siblings[0], siblings[1], current, siblings[2]]
    } else {
        [siblings[0], siblings[1], siblings[2], current]
    };
    assert(children@ =~= children_of(current, position as int, siblings@));
    hash_4_to_1(&children)
}

/// Witness of a single membership proof.
#[derive(Clone, Debug)]
pub struct MerkleWitness {
    /// The leaf hash.
    pub leaf_hash: BabyBear,
    /// Each level: the position and the three siblings.
    pub levels: Vec<MerkleLevelWitness>,
    /// The expected root.
    pub expected_root: BabyBear,
}

/// One level of a membership witness.
#[derive(Clone, Copy, Debug)]
pub struct MerkleLevelWitness {
    /// Position of the running node among its siblings (0..3).
    pub position: u8,
    /// The three siblings.
    pub siblings: [BabyBear; 3],
}

/// The membership trace generator over a witness.
pub struct MerkleAir {
    /// The witness.
    pub witness: MerkleWitness,
}

/// The running node after the first `k` levels.
pub open spec fn spec_path_root(leaf: BabyBear, levels: Seq<MerkleLevelWitness>, k: nat) -> BabyBear
    decreases k,
{
    if k == 0 {
        leaf
    } else {
        let l = levels[k - 1];
        spec_parent(spec_path_root(leaf, levels, (k - 1) as nat), l.position, l.siblings@)
    }
}

/// The trace row of a level over the running node `cur`.
pub open spec fn merkle_row(cur: BabyBear, l: MerkleLevelWitness) -> Seq<BabyBear> {
    seq![
        cur,
        l.siblings@[0],
        l.siblings@[1],
        l.siblings@[2],
        BabyBear::from_spec(l.position as u32),
        spec_parent(cur, l.position, l.siblings@),
    ]
}

impl MerkleAir {
    /// Wrap a witness.
    pub fn new(witness: MerkleWitness) -> (r: Self)
        ensures
            r.witness == witness,
    {
        MerkleAir { witness }
    }

    /// **The trace** of the witness — one row per level, each parent
    /// becoming the next row's running node — and the public inputs
    /// `[leaf_hash, expected_root]`.
    pub fn generate_trace(&self) -> (r: (Vec<Vec<BabyBear>>, Vec<BabyBear>))
        ensures
            r.0@.len() == self.witness.levels@.len(),
            forall|i: int| 0 <= i < self.witness.levels@.len() ==> (#[trigger] r.0@[i])@ == merkle_row(
                spec_path_root(self.witness.leaf_hash, self.witness.levels@, i as nat),
                self.witness.levels@[i],
            ),
            r.1@ == seq![self.witness.leaf_hash, self.witness.expected_root],
    {
        let w = &self.witness;
        let mut trace: Vec<Vec<BabyBear>> = Vec::new();
        let mut current = w.leaf_hash;
        let mut i: usize = 0;
        while i < w.levels.len()
            invariant
                i <= w.levels@.len(),
                trace@.len() == i,
                current == spec_path_root(w.leaf_hash, w.levels@, i as nat),
                forall|j: int| 0 <= j < i ==> (#[trigger] trace@[j])@ == merkle_row(
                    spec_path_root(w.leaf_hash, w.levels@, j as nat),
                    w.levels@[j],
                ),
            decreases w.levels@.len() - i,
        {
            let level = w.levels[i];
            let parent = compute_parent_poseidon2(current, level.position, &level.siblings);
            let mut row: Vec<BabyBear> = Vec::new();
            row.push(current);
            row.push(level.siblings[0]);
            row.push(level.siblings[1]);
            row.push(level.siblings[2]);
            row.push(BabyBear::new(level.position as u32));
            row.push(parent);
            assert(row@ =~= merkle_row(current, level));
            trace.push(row);
            current = parent;
            i = i + 1;
        }
        let mut public_inputs: Vec<BabyBear> = Vec::new();
        public_inputs.push(w.leaf_hash);
        public_inputs.push(w.expected_root);
        assert(public_inputs@ =~= seq![w.leaf_hash, w.expected_root]);
        (trace, public_inputs)
    }
}


/// The position polynomial `p (p - 1)(p - 2)(p - 3)`, zero exactly on the
/// four child positions.
pub open spec fn position_poly(v: int) -> int {
    v * (v - 1) * (v - 2) * (v - 3)
}

/// The three siblings of a trace row.
pub open spec fn row_siblings(row: Seq<BabyBear>) -> Seq<BabyBear> {
    seq![row[1], row[2], row[3]]
}

/// The parent a trace row's level recomputes, its position read back as a byte.
pub open spec fn row_parent(row: Seq<BabyBear>) -> BabyBear {
    spec_parent(row[0], row[4].value() as u8, row_siblings(row))
}

/// `(x * y) mod p` composed of reduced factors is the reduced product.
proof fn lemma_mul_reduced(x: int, y: int)
    ensures
        ((x % (BABYBEAR_P as int)) * (y % (BABYBEAR_P as int))) % (BABYBEAR_P as int) == (x * y) % (BABYBEAR_P as int),
{
    vstd::arithmetic::div_mod::lemma_mul_mod_noop_left(x, y % (BABYBEAR_P as int), BABYBEAR_P as int);
    vstd::arithmetic::div_mod::lemma_mul_mod_noop_right(x, y, BABYBEAR_P as int);
}

impl MerkleAir {
    /// The per-row constraints on a row `[current, sib0, sib1, sib2,
    /// position, parent]`: the position polynomial (zero iff the position is
    /// a child index) and `parent - hash(children)`.
    pub fn constraints(&self, row: &[BabyBear]) -> (r: [BabyBear; 2])
        requires
            row@.len() == MERKLE_AIR_WIDTH,
        ensures
            r[0].value() == position_poly(row@[4].value() as int) % (BABYBEAR_P as int),
            r[1].value() == (row@[5].value() - row_parent(row@).value()) % (BABYBEAR_P as int),
    {
        let p = row[col::POSITION];
        let pv_exec = p.as_u32();
        let a = p.mul_felt(p.sub_felt(BabyBear::one()));
        let b = a.mul_felt(p.sub_felt(BabyBear::new(2)));
        let c = b.mul_felt(p.sub_felt(BabyBear::new(3)));
        proof {
            let pv = p.value() as int;
            let m = BABYBEAR_P as int;
            vstd::arithmetic::div_mod::lemma_small_mod(pv as nat, m as nat);
            lemma_mul_reduced(pv, pv - 1);
            lemma_mul_reduced(pv * (pv - 1), pv - 2);
            lemma_mul_reduced(pv * (pv - 1) * (pv - 2), pv - 3);
        }
        let siblings = [row[col::SIB0], row[col::SIB1], row[col::SIB2]];
        assert(siblings@ =~= row_siblings(row@));
        let position = pv_exec as u8;
        let expected = compute_parent_poseidon2(row[col::CURRENT], position, &siblings);
        [c, row[col::PARENT].sub_felt(expected)]
    }

    /// The first-row constraint: the running node is the published leaf.
    pub fn first_row_constraints(&self, row: &[BabyBear], pi: &[BabyBear]) -> (r: BabyBear)
        requires
            row@.len() == MERKLE_AIR_WIDTH,
            pi@.len() >= 1,
        ensures
            r.value() == (row@[0].value() - pi@[0].value()) % (BABYBEAR_P as int),
    {
        row[col::CURRENT].sub_felt(pi[0])
    }

    /// The last-row constraint: the parent is the published root.
    pub fn last_row_constraints(&self, row: &[BabyBear], pi: &[BabyBear]) -> (r: BabyBear)
        requires
            row@.len() == MERKLE_AIR_WIDTH,
            pi@.len() >= 2,
        ensures
            r.value() == (row@[5].value() - pi@[1].value()) % (BABYBEAR_P as int),
    {
        row[col::PARENT].sub_felt(pi[1])
    }
}

/// **The honest trace satisfies every constraint**: on each row of the
/// trace of a witness whose positions are child indices, the position
/// polynomial vanishes and the parent is the recomputed parent; the first row
/// holds the published leaf; and the last row holds the published root
/// exactly when the witness's expected root is the folded root.
pub proof fn lemma_trace_satisfies_constraints(w: MerkleWitness, i: int)
    requires
        0 <= i < w.levels@.len(),
        forall|j: int| 0 <= j < w.levels@.len() ==> (#[trigger] w.levels@[j]).position < 4,
    ensures
        ({
            let row = merkle_row(spec_path_root(w.leaf_hash, w.levels@, i as nat), w.levels@[i]);
            &&& position_poly(row[4].value() as int) % (BABYBEAR_P as int) == 0
            &&& row[5] == row_parent(row)
            &&& i == 0 ==> row[0] == w.leaf_hash
            &&& i == w.levels@.len() - 1 ==> (row[5] == w.expected_root <==> w.expected_root == spec_path_root(
                w.leaf_hash,
                w.levels@,
                w.levels@.len() as nat,
            ))
        }),
{
    let l = w.levels@[i];
    let cur = spec_path_root(w.leaf_hash, w.levels@, i as nat);
    let row = merkle_row(cur, l);
    BabyBear::lemma_from_spec_value(l.position as u32);
    vstd::arithmetic::div_mod::lemma_small_mod(l.position as nat, BABYBEAR_P as nat);
    assert(row[4].value() == l.position as u32);
    assert(row_siblings(row) =~= l.siblings@);
    let v = l.position as int;
    assert(position_poly(v) == 0) by (nonlinear_arith)
        requires
            0 <= v < 4,
    ;
}

/// The deterministic level `i` of the honest test witness.
pub open spec fn test_level(i: int) -> MerkleLevelWitness {
    MerkleLevelWitness {
        position: (i % 4) as u8,
        siblings: [
            BabyBear::from_spec((i * 3 + 1) as u32),
            BabyBear::from_spec((i * 3 + 2) as u32),
            BabyBear::from_spec((i * 3 + 3) as u32),
        ],
    }
}

/// **An honest test witness** of depth `depth`: level `i` at position
/// `i mod 4` with siblings `3i + 1, 3i + 2, 3i + 3`, and the folded root.
pub fn create_test_witness(leaf_hash: BabyBear, depth: usize) -> (w: MerkleWitness)
    requires
        depth * 3 <= usize::MAX,
    ensures
        w.leaf_hash == leaf_hash,
        w.levels@.len() == depth,
        forall|i: int| 0 <= i < depth ==> #[trigger] w.levels@[i] == test_level(i),
        w.expected_root == spec_path_root(leaf_hash, w.levels@, depth as nat),
{
    let mut current = leaf_hash;
    let mut levels: Vec<MerkleLevelWitness> = Vec::new();
    let mut i: usize = 0;
    while i < depth
        invariant
            depth * 3 <= usize::MAX,
            i <= depth,
            levels@.len() == i,
            forall|j: int| 0 <= j < i ==> #[trigger] levels@[j] == test_level(j),
            current == spec_path_root(leaf_hash, levels@, i as nat),
        decreases depth - i,
    {
        let position = (i % 4) as u8;
        let siblings = [
            BabyBear::new((i * 3 + 1) as u32),
            BabyBear::new((i * 3 + 2) as u32),
            BabyBear::new((i * 3 + 3) as u32),
        ];
        let level = MerkleLevelWitness { position, siblings };
        assert(level == test_level(i as int)) by {
            assert(siblings =~= test_level(i as int).siblings);
        }
        let ghost old_levels = levels@;
        let parent = compute_parent_poseidon2(current, position, &siblings);
        levels.push(level);
        proof {
            lemma_path_root_prefix(leaf_hash, levels@, old_levels, i as nat);
        }
        current = parent;
        i = i + 1;
    }
    MerkleWitness { leaf_hash, levels, expected_root: current }
}

/// The running node only reads the levels it has folded.
proof fn lemma_path_root_prefix(leaf: BabyBear, a: Seq<MerkleLevelWitness>, b: Seq<MerkleLevelWitness>, k: nat)
    requires
        k <= a.len(),
        k <= b.len(),
        forall|j: int| 0 <= j < k ==> a[j] == b[j],
    ensures
        spec_path_root(leaf, a, k) == spec_path_root(leaf, b, k),
    decreases k,
{
    if k > 0 {
        lemma_path_root_prefix(leaf, a, b, (k - 1) as nat);
    }
}


/// **The running hash sits at its position among the siblings**: the
/// children of a level hold `current` at `position`, and taking it out
/// leaves the three siblings in order; the parent is their hash.
pub proof fn lemma_children_place_current(current: BabyBear, position: u8, siblings: Seq<BabyBear>)
    requires
        position <= 3,
        siblings.len() == 3,
    ensures
        children_of(current, position as int, siblings).len() == 4,
        children_of(current, position as int, siblings)[position as int] == current,
        children_of(current, position as int, siblings).remove(position as int) == siblings,
        spec_parent(current, position, siblings) == spec_hash(children_of(current, position as int, siblings)),
{
    assert(children_of(current, position as int, siblings).remove(position as int) =~= siblings);
}

} // verus!
