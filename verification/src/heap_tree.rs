//! The canonical heap trees: sorted, sparse Poseidon2 Merkle trees over the
//! committed heap chain, at one-felt width ([`CanonicalHeapTree`]) and at the
//! faithful eight-felt width ([`CanonicalHeapTree8`]).
//!
//! Both trees share one sparse fold, written once over the [`HeapDigest`]
//! trait: a tree of depth `d` commits the dense vector of `2^d` leaf digests
//! (the chain's digests, then padding), but stores only the non-empty prefix
//! of every level; a node past a level's prefix is the root of an all-padding
//! subtree ([`crate::merkle::empty_root`]).
use vstd::prelude::*;
use vstd::arithmetic::power2::pow2;
use crate::field::BabyBear;
use crate::poseidon2::{hash_fact, hash_many, spec_absorb, spec_hash, chip_absorb_all_lanes, CHIP_NODE8_ARITY};
use crate::merkle::{
    fold_level, empty_root, level_at, node_at, tree_root, path_index, sibling_index,
    path_siblings, path_directions, recompose, recompose_path,
    lemma_level_len, lemma_level_nonempty, lemma_path_index_in_prefix, lemma_path_index_div,
    lemma_membership_recomposes, lemma_level_update,
};
use crate::heap_leaf::{
    HeapLeaf, HeapRootError, spec_leaf_digest, spec_leaf_digest8, heap_chain, is_heap_chain,
    chain_representable, addr_of, build_chain, sentinel_max, spec_sentinel_max,
    SENTINEL_MAX_VALUE, HEAP_TREE_DEPTH,
};

verus! {

// ---------------------------------------------------------------------------
// Digests
// ---------------------------------------------------------------------------

/// A node digest of a heap tree: the padding digest, the internal node
/// compression and the leaf digest, each with its mathematical meaning.
pub trait HeapDigest: Sized + Copy {
    /// The padding (empty-leaf) digest.
    spec fn spec_pad() -> Self;

    /// The internal node compression of a left and a right child.
    spec fn spec_node(l: Self, r: Self) -> Self;

    /// The digest of a leaf.
    spec fn spec_leaf(leaf: HeapLeaf) -> Self;

    /// The padding digest.
    fn pad() -> (r: Self)
        ensures
            r == Self::spec_pad(),
    ;

    /// Compress two children into their parent.
    fn node(l: Self, r: Self) -> (out: Self)
        ensures
            out == Self::spec_node(l, r),
    ;

    /// The digest of a leaf.
    fn leaf(leaf: &HeapLeaf) -> (out: Self)
        ensures
            out == Self::spec_leaf(*leaf),
    ;

    /// Digest equality.
    fn same(&self, other: &Self) -> (b: bool)
        ensures
            b == (*self == *other),
    ;
}

/// The node compression as a function value, for the generic fold.
pub open spec fn node_fn<D: HeapDigest>() -> spec_fn(D, D) -> D {
    |l: D, r: D| D::spec_node(l, r)
}

/// The leaf digests of a chain, position by position.
pub open spec fn leaf_digests<D: HeapDigest>(c: Seq<HeapLeaf>) -> Seq<D> {
    Seq::new(c.len(), |i: int| D::spec_leaf(c[i]))
}

/// The stored prefix of level `k` of the tree over chain `c`.
pub open spec fn heap_level<D: HeapDigest>(c: Seq<HeapLeaf>, k: nat) -> Seq<D> {
    level_at(leaf_digests::<D>(c), D::spec_pad(), node_fn::<D>(), k)
}

/// The root of an all-padding subtree of height `k`.
pub open spec fn empty_root_of<D: HeapDigest>(k: nat) -> D {
    empty_root(D::spec_pad(), node_fn::<D>(), k)
}

/// The node at `(k, idx)` of the dense tree over chain `c`.
pub open spec fn heap_node_at<D: HeapDigest>(c: Seq<HeapLeaf>, k: nat, idx: int) -> D {
    node_at(leaf_digests::<D>(c), D::spec_pad(), node_fn::<D>(), k, idx)
}

/// **The heap root** of chain `c` at depth `depth`.
pub open spec fn heap_root_of<D: HeapDigest>(c: Seq<HeapLeaf>, depth: nat) -> D {
    tree_root(leaf_digests::<D>(c), D::spec_pad(), node_fn::<D>(), depth)
}

/// The membership siblings of position `pos` in the tree over chain `c`.
pub open spec fn heap_siblings<D: HeapDigest>(c: Seq<HeapLeaf>, pos: int, depth: nat) -> Seq<D> {
    path_siblings(leaf_digests::<D>(c), D::spec_pad(), node_fn::<D>(), pos, depth)
}

/// No leaf of `c` digests to the padding digest.
pub open spec fn pad_free<D: HeapDigest>(c: Seq<HeapLeaf>) -> bool {
    forall|i: int| 0 <= i < c.len() ==> D::spec_leaf(#[trigger] c[i]) != D::spec_pad()
}

/// The one-felt heap node `hash[l, r]`.
pub open spec fn spec_heap_node(l: BabyBear, r: BabyBear) -> BabyBear {
    spec_hash(seq![l, r])
}

/// The all-zero eight-felt digest.
pub open spec fn zero8() -> Seq<BabyBear> {
    Seq::new(8, |i: int| BabyBear::spec_zero())
}

/// The eight-felt array whose lanes are `s`.
pub open spec fn digest8_of(s: Seq<BabyBear>) -> [BabyBear; 8] {
    choose|a: [BabyBear; 8]| a@ == s
}

/// An eight-felt array is the array of its own lanes.
pub proof fn lemma_digest8_of(a: [BabyBear; 8])
    ensures
        digest8_of(a@) == a,
{
    let c = digest8_of(a@);
    assert(c@ == a@);
    assert(c =~= a);
}

/// The one-felt heap node: `hash_fact(l, [r])`, the digest `hash[l, r]`.
fn heap_node(l: BabyBear, r: BabyBear) -> (out: BabyBear)
    ensures
        out == spec_heap_node(l, r),
{
    let rest = [r];
    let out = hash_fact(l, rest.as_slice());
    assert(seq![l] + rest@ =~= seq![l, r]);
    out
}

impl HeapDigest for BabyBear {
    open spec fn spec_pad() -> BabyBear {
        BabyBear::spec_zero()
    }

    open spec fn spec_node(l: BabyBear, r: BabyBear) -> BabyBear {
        spec_heap_node(l, r)
    }

    open spec fn spec_leaf(leaf: HeapLeaf) -> BabyBear {
        spec_leaf_digest(leaf)
    }

    fn pad() -> (r: BabyBear) {
        BabyBear::zero()
    }

    fn node(l: BabyBear, r: BabyBear) -> (out: BabyBear) {
        heap_node(l, r)
    }

    fn leaf(leaf: &HeapLeaf) -> (out: BabyBear) {
        leaf.digest()
    }

    fn same(&self, other: &BabyBear) -> (b: bool) {
        proof {
            BabyBear::lemma_value_injective(*self, *other);
        }
        self.as_u32() == other.as_u32()
    }
}

/// **`heap_node8`** — the eight-felt heap node: the arity-16 absorb of
/// `L8 ‖ R8`, all eight output lanes.
pub fn heap_node8(l: [BabyBear; 8], r: [BabyBear; 8]) -> (out: [BabyBear; 8])
    ensures
        out@ == spec_absorb(l@ + r@),
{
    let ins: [BabyBear; 16] = [
        l[0], l[1], l[2], l[3], l[4], l[5], l[6], l[7],
        r[0], r[1], r[2], r[3], r[4], r[5], r[6], r[7],
    ];
    assert(ins@ =~= l@ + r@);
    chip_absorb_all_lanes(CHIP_NODE8_ARITY, ins.as_slice())
}

impl HeapDigest for [BabyBear; 8] {
    open spec fn spec_pad() -> [BabyBear; 8] {
        digest8_of(zero8())
    }

    open spec fn spec_node(l: [BabyBear; 8], r: [BabyBear; 8]) -> [BabyBear; 8] {
        digest8_of(spec_absorb(l@ + r@))
    }

    open spec fn spec_leaf(leaf: HeapLeaf) -> [BabyBear; 8] {
        digest8_of(spec_leaf_digest8(leaf))
    }

    fn pad() -> (r: [BabyBear; 8]) {
        let z = BabyBear::zero();
        let r = [z, z, z, z, z, z, z, z];
        assert(r@ =~= zero8());
        proof {
            lemma_digest8_of(r);
        }
        r
    }

    fn node(l: [BabyBear; 8], r: [BabyBear; 8]) -> (out: [BabyBear; 8]) {
        let out = heap_node8(l, r);
        proof {
            lemma_digest8_of(out);
        }
        out
    }

    fn leaf(leaf: &HeapLeaf) -> (out: [BabyBear; 8]) {
        let out = leaf.digest8();
        proof {
            lemma_digest8_of(out);
        }
        out
    }

    fn same(&self, other: &[BabyBear; 8]) -> (b: bool) {
        let mut i: usize = 0;
        while i < 8
            invariant
                i <= 8,
                forall|j: int| 0 <= j < i ==> self@[j] == other@[j],
            decreases 8 - i,
        {
            if !self[i].same(&other[i]) {
                return false;
            }
            i = i + 1;
        }
        assert(*self =~= *other);
        true
    }
}

// ---------------------------------------------------------------------------
// The sparse fold, generically
// ---------------------------------------------------------------------------

/// The stored levels and empty-subtree roots of a depth-`depth` tree over
/// chain `c`.
pub open spec fn levels_match<D: HeapDigest>(
    levels: Seq<Vec<D>>,
    empties: Seq<D>,
    c: Seq<HeapLeaf>,
    depth: nat,
) -> bool {
    &&& levels.len() == depth + 1
    &&& empties.len() == depth + 1
    &&& forall|k: int| 0 <= k <= depth ==> (#[trigger] levels[k])@ == heap_level::<D>(c, k as nat)
    &&& forall|k: int| 0 <= k <= depth ==> #[trigger] empties[k] == empty_root_of::<D>(k as nat)
}

/// The empty-subtree roots of heights `0..=depth`.
fn empty_roots<D: HeapDigest>(depth: usize) -> (r: Vec<D>)
    ensures
        r@.len() == depth + 1,
        forall|k: int| 0 <= k <= depth ==> #[trigger] r@[k] == empty_root_of::<D>(k as nat),
{
    let mut r: Vec<D> = Vec::new();
    r.push(D::pad());
    let mut k: usize = 0;
    while k < depth
        invariant
            k <= depth,
            r@.len() == k + 1,
            forall|j: int| 0 <= j <= k ==> #[trigger] r@[j] == empty_root_of::<D>(j as nat),
        decreases depth - k,
    {
        let e = r[k];
        r.push(D::node(e, e));
        k = k + 1;
    }
    r
}

/// The empty-subtree root of height `level`.
fn empty_root_at<D: HeapDigest>(level: usize) -> (r: D)
    ensures
        r == empty_root_of::<D>(level as nat),
{
    let mut e = D::pad();
    let mut k: usize = 0;
    while k < level
        invariant
            k <= level,
            e == empty_root_of::<D>(k as nat),
        decreases level - k,
    {
        e = D::node(e, e);
        k = k + 1;
    }
    e
}

/// The digests of a leaf list, position by position.
fn digests_of<D: HeapDigest>(leaves: &Vec<HeapLeaf>) -> (r: Vec<D>)
    ensures
        r@ == leaf_digests::<D>(leaves@),
{
    let mut r: Vec<D> = Vec::new();
    let mut i: usize = 0;
    while i < leaves.len()
        invariant
            i <= leaves@.len(),
            r@.len() == i,
            forall|j: int| 0 <= j < i ==> #[trigger] r@[j] == D::spec_leaf(leaves@[j]),
        decreases leaves@.len() - i,
    {
        r.push(D::leaf(&leaves[i]));
        i = i + 1;
    }
    assert(r@ =~= leaf_digests::<D>(leaves@));
    r
}

/// One step of the sparse fold.
fn fold_one_level<D: HeapDigest>(prev: &Vec<D>, pad: D) -> (next: Vec<D>)
    ensures
        next@ == fold_level(prev@, pad, node_fn::<D>()),
{
    let n = prev.len();
    let m = n / 2 + n % 2;
    assert(m == (n + 1) / 2);
    let mut next: Vec<D> = Vec::new();
    let mut i: usize = 0;
    while i < m
        invariant
            n == prev@.len(),
            m == (n + 1) / 2,
            i <= m,
            next@.len() == i,
            forall|j: int| 0 <= j < i ==> #[trigger] next@[j] == fold_level(prev@, pad, node_fn::<D>())[j],
        decreases m - i,
    {
        let l = prev[2 * i];
        let r = if 2 * i + 1 < n {
            prev[2 * i + 1]
        } else {
            pad
        };
        next.push(D::node(l, r));
        i = i + 1;
    }
    assert(next@ =~= fold_level(prev@, pad, node_fn::<D>()));
    next
}

/// Every stored level of the tree over `c`, bottom-up.
fn fold_levels<D: HeapDigest>(digests: Vec<D>, depth: usize, empties: &Vec<D>, Ghost(c): Ghost<Seq<HeapLeaf>>) -> (levels: Vec<Vec<D>>)
    requires
        digests@ == leaf_digests::<D>(c),
        empties@.len() == depth + 1,
        forall|k: int| 0 <= k <= depth ==> #[trigger] empties@[k] == empty_root_of::<D>(k as nat),
    ensures
        levels_match::<D>(levels@, empties@, c, depth as nat),
{
    let mut levels: Vec<Vec<D>> = Vec::new();
    levels.push(digests);
    let mut level: usize = 0;
    while level < depth
        invariant
            level <= depth,
            empties@.len() == depth + 1,
            forall|k: int| 0 <= k <= depth ==> #[trigger] empties@[k] == empty_root_of::<D>(k as nat),
            levels@.len() == level + 1,
            forall|k: int| 0 <= k <= level ==> (#[trigger] levels@[k])@ == heap_level::<D>(c, k as nat),
        decreases depth - level,
    {
        let next = fold_one_level(&levels[level], empties[level]);
        levels.push(next);
        level = level + 1;
    }
    levels
}

/// The node at `(level, idx)`: the stored value inside the level's prefix,
/// the empty-subtree root past it.
fn node_or_empty<D: HeapDigest>(levels: &Vec<Vec<D>>, empties: &Vec<D>, level: usize, idx: usize, Ghost(c): Ghost<Seq<HeapLeaf>>) -> (r: D)
    requires
        level < levels@.len(),
        level < empties@.len(),
        levels@[level as int]@ == heap_level::<D>(c, level as nat),
        empties@[level as int] == empty_root_of::<D>(level as nat),
    ensures
        r == heap_node_at::<D>(c, level as nat, idx as int),
{
    let row = &levels[level];
    assert(row@ == heap_level::<D>(c, level as nat));
    if idx < row.len() {
        row[idx]
    } else {
        empties[level]
    }
}

/// Whether `n` lies below the dense capacity `2^depth`.
fn below_capacity(n: usize, depth: usize) -> (b: bool)
    ensures
        b == (n < pow2(depth as nat)),
{
    let mut c: usize = 1;
    let mut k: usize = 0;
    proof {
        vstd::arithmetic::power2::lemma2_to64();
    }
    while k < depth && c <= n
        invariant
            k <= depth,
            c == pow2(k as nat),
        decreases depth - k,
    {
        proof {
            vstd::arithmetic::power2::lemma_pow2_unfold((k + 1) as nat);
            if k + 1 < depth {
                vstd::arithmetic::power2::lemma_pow2_strictly_increases((k + 1) as nat, depth as nat);
            }
        }
        if c > usize::MAX / 2 {
            // 2c exceeds every usize, hence n
            return true;
        }
        c = c * 2;
        k = k + 1;
    }
    if n < c {
        proof {
            if k < depth {
                vstd::arithmetic::power2::lemma_pow2_strictly_increases(k as nat, depth as nat);
            }
        }
        true
    } else {
        false
    }
}

/// Whether `n` leaves fit in the dense capacity `2^depth`.
fn fits_capacity(n: usize, depth: usize) -> (b: bool)
    ensures
        b == (n <= pow2(depth as nat)),
{
    if n == 0 {
        proof {
            vstd::arithmetic::power2::lemma_pow2_pos(depth as nat);
        }
        true
    } else {
        below_capacity(n - 1, depth)
    }
}

/// The membership path `(siblings, directions)` of `position`: the sibling
/// node at every level, and whether the path node is a right child.
fn membership_path<D: HeapDigest>(levels: &Vec<Vec<D>>, empties: &Vec<D>, depth: usize, position: usize, Ghost(c): Ghost<Seq<HeapLeaf>>) -> (r: (Vec<D>, Vec<u8>))
    requires
        levels_match::<D>(levels@, empties@, c, depth as nat),
    ensures
        r.0@ == heap_siblings::<D>(c, position as int, depth as nat),
        r.1@ == path_directions(position as int, depth as nat),
{
    let mut siblings: Vec<D> = Vec::new();
    let mut directions: Vec<u8> = Vec::new();
    let mut idx = position;
    let mut level: usize = 0;
    while level < depth
        invariant
            level <= depth,
            levels_match::<D>(levels@, empties@, c, depth as nat),
            idx == path_index(position as int, level as nat),
            siblings@.len() == level,
            directions@.len() == level,
            forall|k: int| 0 <= k < level ==> #[trigger] siblings@[k] == heap_siblings::<D>(c, position as int, depth as nat)[k],
            forall|k: int| 0 <= k < level ==> #[trigger] directions@[k] == path_directions(position as int, depth as nat)[k],
        decreases depth - level,
    {
        let sib = if idx % 2 == 0 {
            assert(usize::MAX % 2 == 1);
            idx + 1
        } else {
            idx - 1
        };
        siblings.push(node_or_empty(levels, empties, level, sib, Ghost(c)));
        directions.push((idx % 2) as u8);
        idx = idx / 2;
        level = level + 1;
    }
    assert(siblings@ =~= heap_siblings::<D>(c, position as int, depth as nat));
    assert(directions@ =~= path_directions(position as int, depth as nat));
    (siblings, directions)
}

/// The shorter of a path's two lengths.
pub open spec fn path_len<D>(siblings: Seq<D>, directions: Seq<u8>) -> nat {
    if siblings.len() <= directions.len() {
        siblings.len()
    } else {
        directions.len()
    }
}

/// Fold a digest up a `(sibling, direction)` path, as far as both run.
fn recompose_digest<D: HeapDigest>(leaf: D, siblings: &[D], directions: &[u8]) -> (r: D)
    ensures
        r == recompose(leaf, siblings@, directions@, node_fn::<D>(), path_len(siblings@, directions@)),
{
    let n = if siblings.len() <= directions.len() {
        siblings.len()
    } else {
        directions.len()
    };
    let mut cur = leaf;
    let mut k: usize = 0;
    while k < n
        invariant
            k <= n,
            n == path_len(siblings@, directions@),
            n <= siblings@.len(),
            n <= directions@.len(),
            cur == recompose(leaf, siblings@, directions@, node_fn::<D>(), k as nat),
        decreases n - k,
    {
        let sib = siblings[k];
        cur = if directions[k] == 0 {
            D::node(cur, sib)
        } else {
            D::node(sib, cur)
        };
        k = k + 1;
    }
    cur
}

/// The digests of a chain with one leaf replaced.
pub proof fn lemma_leaf_digests_update<D: HeapDigest>(c: Seq<HeapLeaf>, pos: int, x: HeapLeaf)
    requires
        0 <= pos < c.len(),
    ensures
        leaf_digests::<D>(c.update(pos, x)) == leaf_digests::<D>(c).update(pos, D::spec_leaf(x)),
{
    assert(leaf_digests::<D>(c.update(pos, x)) =~= leaf_digests::<D>(c).update(pos, D::spec_leaf(x)));
}

/// **Update law of the fold**: the new leaf, folded up the old leaf's
/// membership path, gives the root of the tree with that leaf replaced.
pub proof fn lemma_update_root<D: HeapDigest>(c: Seq<HeapLeaf>, depth: nat, pos: int, x: HeapLeaf)
    requires
        0 <= pos < c.len(),
        pos < pow2(depth),
    ensures
        recompose_path(
            D::spec_leaf(x),
            heap_siblings::<D>(c, pos, depth),
            path_directions(pos, depth),
            node_fn::<D>(),
        ) == heap_root_of::<D>(c.update(pos, x), depth),
{
    let d = leaf_digests::<D>(c);
    lemma_leaf_digests_update::<D>(c, pos, x);
    crate::merkle::lemma_siblings_after_update(d, D::spec_pad(), node_fn::<D>(), pos, D::spec_leaf(x), depth);
    lemma_membership_recomposes(d.update(pos, D::spec_leaf(x)), D::spec_pad(), node_fn::<D>(), pos, depth);
    assert(d.update(pos, D::spec_leaf(x))[pos] == D::spec_leaf(x));
}

/// Rewrite leaf `pos` of the stored levels and recompute its path to the
/// root, reading each sibling from its level (or the empty-subtree root).
fn update_path<D: HeapDigest>(
    levels: &mut Vec<Vec<D>>,
    empties: &Vec<D>,
    depth: usize,
    pos: usize,
    leaf: D,
    Ghost(c): Ghost<Seq<HeapLeaf>>,
    Ghost(x): Ghost<HeapLeaf>,
) -> (root: D)
    requires
        levels_match::<D>(old(levels)@, empties@, c, depth as nat),
        pos < c.len(),
        c.len() <= pow2(depth as nat),
        leaf == D::spec_leaf(x),
    ensures
        levels_match::<D>(final(levels)@, empties@, c.update(pos as int, x), depth as nat),
        root == heap_root_of::<D>(c.update(pos as int, x), depth as nat),
{
    let ghost nc = c.update(pos as int, x);
    let ghost d = leaf_digests::<D>(c);
    proof {
        lemma_leaf_digests_update::<D>(c, pos as int, x);
        lemma_path_index_in_prefix(d, D::spec_pad(), node_fn::<D>(), pos as int, 0);
    }
    assert(levels@[0]@ == d);
    levels[0][pos] = leaf;
    assert(levels@[0]@ =~= heap_level::<D>(nc, 0));
    let mut idx = pos;
    let mut cur = leaf;
    let mut level: usize = 0;
    while level < depth
        invariant
            level <= depth,
            pos < c.len(),
            c.len() <= pow2(depth as nat),
            nc == c.update(pos as int, x),
            d == leaf_digests::<D>(c),
            leaf_digests::<D>(nc) == d.update(pos as int, D::spec_leaf(x)),
            levels@.len() == depth + 1,
            empties@.len() == depth + 1,
            forall|k: int| 0 <= k <= depth ==> #[trigger] empties@[k] == empty_root_of::<D>(k as nat),
            forall|k: int| 0 <= k <= level ==> (#[trigger] levels@[k])@ == heap_level::<D>(nc, k as nat),
            forall|k: int| level < k <= depth ==> (#[trigger] levels@[k])@ == heap_level::<D>(c, k as nat),
            idx == path_index(pos as int, level as nat),
            idx < heap_level::<D>(nc, level as nat).len(),
            cur == heap_level::<D>(nc, level as nat)[idx as int],
        decreases depth - level,
    {
        let ghost lvl = heap_level::<D>(nc, level as nat);
        proof {
            lemma_path_index_in_prefix(leaf_digests::<D>(nc), D::spec_pad(), node_fn::<D>(), pos as int, (level + 1) as nat);
            lemma_level_update(d, D::spec_pad(), node_fn::<D>(), pos as int, D::spec_leaf(x), (level + 1) as nat);
        }
        let (l, r) = if idx % 2 == 0 {
            assert(usize::MAX % 2 == 1);
            let r = node_or_empty(levels, empties, level, idx + 1, Ghost(nc));
            (cur, r)
        } else {
            let l = node_or_empty(levels, empties, level, idx - 1, Ghost(nc));
            (l, cur)
        };
        cur = D::node(l, r);
        idx = idx / 2;
        assert(cur == heap_level::<D>(nc, (level + 1) as nat)[idx as int]);
        assert(levels@[level + 1]@ == heap_level::<D>(c, (level + 1) as nat));
        assert(idx == path_index(pos as int, (level + 1) as nat));
        assert(leaf_digests::<D>(nc) == d.update(pos as int, D::spec_leaf(x)));
        assert(heap_level::<D>(nc, (level + 1) as nat).len() == heap_level::<D>(c, (level + 1) as nat).len()) by {
            let k1 = (level + 1) as nat;
            let xd = D::spec_leaf(x);
            lemma_level_update(d, D::spec_pad(), node_fn::<D>(), pos as int, xd, k1);
            lemma_path_index_in_prefix(d, D::spec_pad(), node_fn::<D>(), pos as int, k1);
            assert(heap_level::<D>(nc, k1) == level_at(d.update(pos as int, xd), D::spec_pad(), node_fn::<D>(), k1));
            assert(heap_level::<D>(c, k1) == level_at(d, D::spec_pad(), node_fn::<D>(), k1));
        }
        assert(idx < levels@[level + 1]@.len());
        levels[level + 1][idx] = cur;
        assert(levels@[level + 1]@ =~= heap_level::<D>(nc, (level + 1) as nat));
        level = level + 1;
    }
    proof {
        crate::merkle::lemma_path_index_top(pos as int, depth as nat);
    }
    cur
}

/// The number of leaves of a strictly sorted list at addresses `<= k`.
fn partition_le(leaves: &Vec<HeapLeaf>, k: u32) -> (p: usize)
    requires
        crate::heap_leaf::strictly_sorted(leaves@),
    ensures
        p <= leaves@.len(),
        forall|i: int| 0 <= i < p ==> addr_of(#[trigger] leaves@[i]) <= k,
        forall|i: int| p <= i < leaves@.len() ==> addr_of(#[trigger] leaves@[i]) > k,
{
    let mut lo: usize = 0;
    let mut hi: usize = leaves.len();
    while lo < hi
        invariant
            lo <= hi <= leaves@.len(),
            crate::heap_leaf::strictly_sorted(leaves@),
            forall|i: int| 0 <= i < lo ==> addr_of(#[trigger] leaves@[i]) <= k,
            forall|i: int| hi <= i < leaves@.len() ==> addr_of(#[trigger] leaves@[i]) > k,
        decreases hi - lo,
    {
        let mid = lo + (hi - lo) / 2;
        if leaves[mid].addr.as_u32() <= k {
            proof {
                assert forall|i: int| 0 <= i < mid + 1 implies addr_of(#[trigger] leaves@[i]) <= k by {
                    if i < mid {
                        assert(addr_of(leaves@[i]) < addr_of(leaves@[mid as int]));
                    }
                }
            }
            lo = mid + 1;
        } else {
            proof {
                assert forall|i: int| mid <= i < leaves@.len() implies addr_of(#[trigger] leaves@[i]) > k by {
                    if i > mid {
                        assert(addr_of(leaves@[mid as int]) < addr_of(leaves@[i]));
                    }
                }
            }
            hi = mid;
        }
    }
    lo
}

/// The leaves after the head of a list.
fn tail_leaves(leaves: &Vec<HeapLeaf>) -> (r: Vec<HeapLeaf>)
    requires
        leaves@.len() >= 1,
    ensures
        r@ == leaves@.drop_first(),
{
    let mut r: Vec<HeapLeaf> = Vec::new();
    let mut i: usize = 1;
    while i < leaves.len()
        invariant
            1 <= i <= leaves@.len(),
            r@ == leaves@.subrange(1, i as int),
        decreases leaves@.len() - i,
    {
        r.push(leaves[i]);
        assert(leaves@.subrange(1, i + 1) =~= leaves@.subrange(1, i as int).push(leaves@[i as int]));
        i = i + 1;
    }
    assert(leaves@.subrange(1, leaves@.len() as int) =~= leaves@.drop_first());
    r
}

/// A key that a sorted insert accepts: strictly inside `(MIN, MAX)` and
/// absent from the chain.
pub open spec fn insertable(c: Seq<HeapLeaf>, key: BabyBear) -> bool {
    &&& key.value() != 0
    &&& key.value() < SENTINEL_MAX_VALUE
    &&& !addr_present(c, key)
}

/// The real entries of a chain plus one new leaf.
pub open spec fn insert_entries(c: Seq<HeapLeaf>, leaf: HeapLeaf) -> Seq<HeapLeaf> {
    c.drop_first().push(leaf)
}

/// The committed chain after a sorted insert of `leaf` into `c`.
pub open spec fn inserted_chain(c: Seq<HeapLeaf>, leaf: HeapLeaf) -> Seq<HeapLeaf> {
    heap_chain(insert_entries(c, leaf))
}

/// A sorted insert of an insertable key commits a chain one leaf longer,
/// holding the new entry.
pub proof fn lemma_insert_representable(c: Seq<HeapLeaf>, leaf: HeapLeaf)
    requires
        linked_chain(c),
        insertable(c, leaf.addr),
    ensures
        chain_representable(insert_entries(c, leaf)),
        is_heap_chain(inserted_chain(c, leaf)),
        inserted_chain(c, leaf).len() == c.len() + 1,
        addr_present(inserted_chain(c, leaf), leaf.addr),
        inserted_chain(c, leaf)[addr_position(inserted_chain(c, leaf), leaf.addr)].value == leaf.value,
{
    let e = insert_entries(c, leaf);
    BabyBear::lemma_from_spec_value(0);
    assert forall|i: int| 0 <= i < e.len() implies addr_of(#[trigger] e[i]) != 0 by {
        if i < e.len() - 1 {
            assert(e[i] == c[i + 1]);
            assert(addr_of(c[0]) < addr_of(c[i + 1]));
        }
    }
    crate::heap_leaf::lemma_strip_identity(e);
    assert(crate::heap_leaf::all_distinct_addrs(e)) by {
        assert forall|i: int, j: int| 0 <= i < j < e.len() implies addr_of(e[i]) != addr_of(e[j]) by {
            assert(e[i] == c[i + 1]);
            if j < e.len() - 1 {
                assert(e[j] == c[j + 1]);
                assert(addr_of(c[i + 1]) < addr_of(c[j + 1]));
            } else {
                assert(e[j] == leaf);
                if addr_of(c[i + 1]) == addr_of(leaf) {
                    BabyBear::lemma_value_injective(c[i + 1].addr, leaf.addr);
                    assert(c[i + 1].addr == leaf.addr);
                }
            }
        }
    }
    assert(crate::heap_leaf::addrs_below_max(e)) by {
        assert forall|i: int| 0 <= i < e.len() implies addr_of(#[trigger] e[i]) < SENTINEL_MAX_VALUE by {
            if i < e.len() - 1 {
                assert(e[i] == c[i + 1]);
            }
        }
    }
    crate::heap_leaf::lemma_heap_chain_is_chain(e);
    crate::heap_leaf::lemma_sorted_with_sentinel(e);
    let s = crate::heap_leaf::sorted_with_sentinel(e);
    let nc = inserted_chain(c, leaf);
    assert(e[e.len() - 1] == leaf);
    assert(e.contains(leaf));
    assert(s.contains(leaf));
    let k = choose|k: int| 0 <= k < s.len() && s[k] == leaf;
    assert(nc[k].addr == leaf.addr && nc[k].value == leaf.value);
    lemma_addr_position(nc, leaf.addr, k);
}


// ---------------------------------------------------------------------------
// Chains, lookups and guards
// ---------------------------------------------------------------------------

/// A linked chain: headed by the MIN address, strictly sorted by address,
/// well linked. (A committed chain also carries value `0` at its head; an
/// in-place value write may change that value.)
pub open spec fn linked_chain(s: Seq<HeapLeaf>) -> bool {
    &&& s.len() >= 1
    &&& addr_of(s[0]) == 0
    &&& crate::heap_leaf::strictly_sorted(s)
    &&& crate::heap_leaf::well_linked(s)
}

/// Some leaf of `c` sits at address `key`.
pub open spec fn addr_present(c: Seq<HeapLeaf>, key: BabyBear) -> bool {
    exists|i: int| 0 <= i < c.len() && (#[trigger] c[i]).addr == key
}

/// The position of the leaf of `c` at address `key` (meaningful when present).
pub open spec fn addr_position(c: Seq<HeapLeaf>, key: BabyBear) -> int {
    choose|i: int| 0 <= i < c.len() && (#[trigger] c[i]).addr == key
}

/// In a strictly sorted list an address occurs at most once.
pub proof fn lemma_addr_position(c: Seq<HeapLeaf>, key: BabyBear, i: int)
    requires
        crate::heap_leaf::strictly_sorted(c),
        0 <= i < c.len(),
        c[i].addr == key,
    ensures
        addr_present(c, key),
        addr_position(c, key) == i,
{
    let j = addr_position(c, key);
    assert(0 <= j < c.len() && c[j].addr == key);
    if j < i {
        assert(addr_of(c[j]) < addr_of(c[i]));
    }
    if i < j {
        assert(addr_of(c[i]) < addr_of(c[j]));
    }
}

/// A committed chain is a linked chain.
pub proof fn lemma_heap_chain_linked(s: Seq<HeapLeaf>)
    requires
        is_heap_chain(s),
    ensures
        linked_chain(s),
{
    BabyBear::lemma_from_spec_value(0);
}

/// Binary search for the leaf at address `key` in a strictly sorted list.
fn find_addr(leaves: &Vec<HeapLeaf>, key: BabyBear) -> (r: Option<usize>)
    requires
        crate::heap_leaf::strictly_sorted(leaves@),
    ensures
        r is Some <==> addr_present(leaves@, key),
        r matches Some(i) ==> i < leaves@.len() && i == addr_position(leaves@, key),
{
    let k = key.as_u32();
    let mut lo: usize = 0;
    let mut hi: usize = leaves.len();
    while lo < hi
        invariant
            lo <= hi <= leaves@.len(),
            k == key.value(),
            crate::heap_leaf::strictly_sorted(leaves@),
            forall|i: int| 0 <= i < lo ==> addr_of(#[trigger] leaves@[i]) < k,
            forall|i: int| hi <= i < leaves@.len() ==> addr_of(#[trigger] leaves@[i]) > k,
        decreases hi - lo,
    {
        let mid = lo + (hi - lo) / 2;
        let a = leaves[mid].addr.as_u32();
        if a == k {
            proof {
                BabyBear::lemma_value_injective(leaves@[mid as int].addr, key);
                lemma_addr_position(leaves@, key, mid as int);
            }
            return Some(mid);
        } else if a < k {
            proof {
                assert forall|i: int| 0 <= i < mid + 1 implies addr_of(#[trigger] leaves@[i]) < k by {
                    if i < mid {
                        assert(addr_of(leaves@[i]) < addr_of(leaves@[mid as int]));
                    }
                }
            }
            lo = mid + 1;
        } else {
            proof {
                assert forall|i: int| mid <= i < leaves@.len() implies addr_of(#[trigger] leaves@[i]) > k by {
                    if i > mid {
                        assert(addr_of(leaves@[mid as int]) < addr_of(leaves@[i]));
                    }
                }
            }
            hi = mid;
        }
    }
    proof {
        if addr_present(leaves@, key) {
            let i = choose|i: int| 0 <= i < leaves@.len() && (#[trigger] leaves@[i]).addr == key;
            assert(addr_of(leaves@[i]) == k);
        }
    }
    None
}

/// **`assert_pad_free`** — the guard that no stored digest is the padding
/// digest. A list that contains it is outside what the guard accepts: such
/// a tree both presents and denies an entry (the builders refuse it with
/// [`HeapRootError::PadDigest`]). On what it accepts it has no effect.
pub fn assert_pad_free<T: HeapDigest>(digests: &[T], pad: &T, tree: &str)
    requires
        forall|i: int| 0 <= i < digests@.len() ==> digests@[i] != *pad,
{
}

/// **`assert_pad_free_tail`** — the weaker guard for a tree that stores the
/// padding digest at live positions on purpose (a tombstone): only a list
/// whose last digest is the padding digest is outside what it accepts. On
/// what it accepts it has no effect.
pub fn assert_pad_free_tail<T: HeapDigest>(digests: &[T], pad: &T, tree: &str)
    requires
        digests@.len() == 0 || digests@.last() != *pad,
{
}

/// The first stored digest equal to the padding digest, reported as
/// [`HeapRootError::PadDigest`].
fn find_pad_digest<T: HeapDigest>(digests: &[T], pad: &T) -> (r: Result<(), HeapRootError>)
    ensures
        r is Ok <==> forall|i: int| 0 <= i < digests@.len() ==> digests@[i] != *pad,
        r matches Err(e) ==> e matches HeapRootError::PadDigest { position } && position < digests@.len()
            && digests@[position as int] == *pad
            && forall|j: int| 0 <= j < position ==> digests@[j] != *pad,
{
    let mut i: usize = 0;
    while i < digests.len()
        invariant
            i <= digests@.len(),
            forall|j: int| 0 <= j < i ==> digests@[j] != *pad,
        decreases digests@.len() - i,
    {
        if digests[i].same(pad) {
            return Err(HeapRootError::PadDigest { position: i });
        }
        i = i + 1;
    }
    Ok(())
}

/// **`heap_addr`** — the canonical heap address of a `(collection, key)`
/// pair: the arity-2 digest `hash[coll, key]`, with no domain tag.
pub fn heap_addr(coll: BabyBear, key: BabyBear) -> (r: BabyBear)
    ensures
        r == spec_hash(seq![coll, key]),
{
    let ins = [coll, key];
    let r = hash_many(ins.as_slice());
    assert(ins@ =~= seq![coll, key]);
    r
}

/// The heap leaf of a raw `((coll, key), value)` entry.
pub open spec fn entry_leaf(e: ((BabyBear, BabyBear), BabyBear)) -> HeapLeaf {
    HeapLeaf { addr: spec_hash(seq![e.0.0, e.0.1]), value: e.1, next_addr: spec_sentinel_max() }
}

/// The heap leaves of raw entries, in order.
pub open spec fn entry_leaves(entries: Seq<((BabyBear, BabyBear), BabyBear)>) -> Seq<HeapLeaf> {
    Seq::new(entries.len(), |i: int| entry_leaf(entries[i]))
}

/// Address raw `((coll, key), value)` entries into unlinked heap leaves.
fn leaves_of_entries(entries: &[((BabyBear, BabyBear), BabyBear)]) -> (r: Vec<HeapLeaf>)
    ensures
        r@ == entry_leaves(entries@),
{
    let mut r: Vec<HeapLeaf> = Vec::new();
    let mut i: usize = 0;
    while i < entries.len()
        invariant
            i <= entries@.len(),
            r@.len() == i,
            forall|j: int| 0 <= j < i ==> #[trigger] r@[j] == entry_leaf(entries@[j]),
        decreases entries@.len() - i,
    {
        let ((coll, key), value) = entries[i];
        r.push(HeapLeaf::entry(heap_addr(coll, key), value));
        i = i + 1;
    }
    assert(r@ =~= entry_leaves(entries@));
    r
}

/// Whether the leaf digests of a chain avoid the padding digest, reported
/// as the guard reports it.
fn check_pad_free<D: HeapDigest>(chain: &Vec<HeapLeaf>, tree: &str) -> (r: Result<(), HeapRootError>)
    ensures
        r is Ok <==> pad_free::<D>(chain@),
        r matches Err(e) ==> e is PadDigest,
{
    let digests: Vec<D> = digests_of(chain);
    let pad = D::pad();
    let r = find_pad_digest(digests.as_slice(), &pad);
    proof {
        if r is Ok {
            assert forall|i: int| 0 <= i < chain@.len() implies D::spec_leaf(#[trigger] chain@[i]) != D::spec_pad() by {
                assert(digests@[i] == D::spec_leaf(chain@[i]));
            }
        } else {
            let e = r->Err_0;
            let p = e->PadDigest_position;
            assert(D::spec_leaf(chain@[p as int]) == D::spec_pad());
        }
    }
    r
}

/// Whether a sorted insert of `new_leaf` into the chain `c` can be committed
/// at depth `depth`: the grown chain fits `2^depth` leaves and none of its
/// leaves hashes to the padding digest.
fn check_insert_fits<D: HeapDigest>(c: &Vec<HeapLeaf>, new_leaf: HeapLeaf, depth: usize, tree: &str) -> (r: Result<(), HeapRootError>)
    requires
        linked_chain(c@),
        insertable(c@, new_leaf.addr),
    ensures
        r is Ok <==> (c@.len() + 1 <= pow2(depth as nat) && pad_free::<D>(inserted_chain(c@, new_leaf))),
        r matches Err(e) ==> (e is CapacityExceeded <==> c@.len() + 1 > pow2(depth as nat)),
        r matches Err(e) ==> (e is CapacityExceeded || e is PadDigest),
{
    let mut entries = tail_leaves(c);
    entries.push(new_leaf);
    proof {
        lemma_insert_representable(c@, new_leaf);
    }
    let chain = match build_chain(entries, tree) {
        Ok(v) => v,
        Err(e) => {
            return Err(e);
        },
    };
    if !fits_capacity(chain.len(), depth) {
        return Err(HeapRootError::CapacityExceeded { leaves: chain.len() });
    }
    check_pad_free::<D>(&chain, tree)
}

/// The stored levels of the tree over a chain.
fn build_levels<D: HeapDigest>(chain: &Vec<HeapLeaf>, depth: usize) -> (r: (Vec<Vec<D>>, Vec<D>))
    ensures
        levels_match::<D>(r.0@, r.1@, chain@, depth as nat),
{
    let empties: Vec<D> = empty_roots(depth);
    let digests: Vec<D> = digests_of(chain);
    let levels = fold_levels(digests, depth, &empties, Ghost(chain@));
    (levels, empties)
}

/// The leaves of a chain that are neither sentinel.
pub open spec fn count_real(s: Seq<HeapLeaf>) -> nat
    decreases s.len(),
{
    if s.len() == 0 {
        0
    } else {
        count_real(s.drop_last()) + if addr_of(s.last()) != 0 && addr_of(s.last()) != SENTINEL_MAX_VALUE {
            1nat
        } else {
            0nat
        }
    }
}

/// A linked chain holds one sentinel leaf and no leaf at MAX.
pub proof fn lemma_count_real(s: Seq<HeapLeaf>, n: int)
    requires
        linked_chain(s),
        1 <= n <= s.len(),
    ensures
        count_real(s.take(n)) == n - 1,
    decreases n,
{
    assert(s.take(n).drop_last() =~= s.take(n - 1));
    assert(s.take(n).last() == s[n - 1]);
    assert(addr_of(s[n - 1]) < SENTINEL_MAX_VALUE);
    if n == 1 {
        assert(s.take(0) =~= Seq::<HeapLeaf>::empty());
        assert(count_real(s.take(0)) == 0);
        assert(count_real(s.take(1)) == count_real(s.take(0)));
    } else {
        lemma_count_real(s, n - 1);
        assert(addr_of(s[0]) < addr_of(s[n - 1]));
    }
}

/// Count the leaves of a list that are neither sentinel.
fn count_real_leaves(leaves: &Vec<HeapLeaf>) -> (r: usize)
    ensures
        r == count_real(leaves@),
{
    let mut c: usize = 0;
    let mut i: usize = 0;
    while i < leaves.len()
        invariant
            i <= leaves@.len(),
            c == count_real(leaves@.take(i as int)),
            c <= i,
        decreases leaves@.len() - i,
    {
        let a = leaves[i].addr.as_u32();
        assert(leaves@.take(i + 1).drop_last() =~= leaves@.take(i as int));
        if a != 0 && a != SENTINEL_MAX_VALUE {
            c = c + 1;
        }
        i = i + 1;
    }
    assert(leaves@.take(leaves@.len() as int) =~= leaves@);
    c
}

/// The leaf an in-place value write leaves at a committed position: the
/// committed address and pointer, the written value.
pub open spec fn written_leaf(old: HeapLeaf, value: BabyBear) -> HeapLeaf {
    HeapLeaf { addr: old.addr, value, next_addr: old.next_addr }
}

/// A value write keeps a linked chain linked.
pub proof fn lemma_write_keeps_linked(c: Seq<HeapLeaf>, pos: int, value: BabyBear)
    requires
        linked_chain(c),
        0 <= pos < c.len(),
    ensures
        linked_chain(c.update(pos, written_leaf(c[pos], value))),
{
    let n = c.update(pos, written_leaf(c[pos], value));
    assert forall|i: int| 0 <= i < n.len() implies #[trigger] n[i].addr == c[i].addr && n[i].next_addr == c[i].next_addr by {}
    assert(crate::heap_leaf::strictly_sorted(n)) by {
        assert forall|i: int, j: int| 0 <= i < j < n.len() implies addr_of(n[i]) < addr_of(n[j]) by {
            assert(n[i].addr == c[i].addr && n[j].addr == c[j].addr);
        }
    }
    assert(crate::heap_leaf::well_linked(n)) by {
        assert forall|i: int| 0 <= i < n.len() implies (#[trigger] n[i]).next_addr == (if i + 1 < n.len() {
            n[i + 1].addr
        } else {
            spec_sentinel_max()
        }) by {
            assert(c[i].next_addr == (if i + 1 < c.len() { c[i + 1].addr } else { spec_sentinel_max() }));
            if i + 1 < n.len() {
                assert(n[i + 1].addr == c[i + 1].addr);
            }
        }
        assert forall|i: int| 0 <= i < n.len() implies addr_of(#[trigger] n[i]) < SENTINEL_MAX_VALUE by {
            assert(n[i].addr == c[i].addr);
        }
    }
    assert(n[0].addr == c[0].addr);
}

// ---------------------------------------------------------------------------
// The one-felt tree
// ---------------------------------------------------------------------------

/// The canonical heap tree at one-felt width: the committed chain, its
/// depth, and the stored non-empty prefix of every level.
#[derive(Clone, Debug)]
pub struct CanonicalHeapTree {
    levels: Vec<Vec<BabyBear>>,
    sorted_leaves: Vec<HeapLeaf>,
    depth: usize,
    empties: Vec<BabyBear>,
}

/// An in-place update witness: the old leaf opened against the old root and
/// the new leaf (same address and pointer, new value) recomposed over the
/// same path.
#[derive(Clone, Debug)]
pub struct HeapUpdateWitness {
    /// The committed leaf.
    pub old_leaf: HeapLeaf,
    /// The rewritten leaf: same address, same pointer, new value.
    pub new_leaf: HeapLeaf,
    /// Sibling digests from the leaf to the root.
    pub siblings: Vec<BabyBear>,
    /// Direction bits (`0`: the path node is a left child).
    pub directions: Vec<u8>,
    /// The authenticated old root.
    pub old_root: BabyBear,
    /// The recomposed new root.
    pub new_root: BabyBear,
}

/// A sorted-insert witness: the new leaf opened against the rebuilt tree.
#[derive(Clone, Debug)]
pub struct HeapInsertWitness {
    /// The inserted leaf, linked into the chain.
    pub new_leaf: HeapLeaf,
    /// Sibling digests from the new leaf to the new root.
    pub siblings: Vec<BabyBear>,
    /// Direction bits.
    pub directions: Vec<u8>,
    /// The pre-insert root.
    pub old_root: BabyBear,
    /// The post-insert root.
    pub new_root: BabyBear,
}

impl CanonicalHeapTree {
    /// The tree is built over a linked chain that fits its capacity, and its
    /// stored levels are the sparse fold of the chain.
    pub closed spec fn wf(&self) -> bool {
        &&& linked_chain(self.sorted_leaves@)
        &&& self.sorted_leaves@.len() <= pow2(self.depth as nat)
        &&& levels_match::<BabyBear>(self.levels@, self.empties@, self.sorted_leaves@, self.depth as nat)
    }

    /// The committed chain, sentinel included.
    pub closed spec fn chain(&self) -> Seq<HeapLeaf> {
        self.sorted_leaves@
    }

    /// The tree depth.
    pub closed spec fn spec_depth(&self) -> nat {
        self.depth as nat
    }

    /// What well-formedness says of the chain.
    pub proof fn lemma_wf(&self)
        requires
            self.wf(),
        ensures
            linked_chain(self.chain()),
            self.chain().len() <= pow2(self.spec_depth()),
    {
    }

    /// **Build the canonical heap tree** over a leaf list at depth `depth`:
    /// the committed chain ([`heap_chain`]) folded sparsely.
    pub fn new(leaves: Vec<HeapLeaf>, depth: usize) -> (t: Self)
        requires
            chain_representable(leaves@),
            heap_chain(leaves@).len() <= pow2(depth as nat),
            pad_free::<BabyBear>(heap_chain(leaves@)),
        ensures
            t.wf(),
            t.chain() == heap_chain(leaves@),
            t.spec_depth() == depth,
    {
        let chain = build_chain(leaves, "CanonicalHeapTree").unwrap();
        proof {
            lemma_heap_chain_linked(chain@);
        }
        let (levels, empties) = build_levels::<BabyBear>(&chain, depth);
        CanonicalHeapTree { levels, sorted_leaves: chain, depth, empties }
    }

    /// Build the tree, or report why the leaf list cannot be committed: the
    /// chain refusals of [`build_chain`], then a chain over capacity, then a
    /// leaf digest equal to the padding digest.
    pub fn try_new(leaves: Vec<HeapLeaf>, depth: usize) -> (r: Result<Self, HeapRootError>)
        ensures
            r is Ok <==> (chain_representable(leaves@) && heap_chain(leaves@).len() <= pow2(depth as nat)
                && pad_free::<BabyBear>(heap_chain(leaves@))),
            r matches Ok(t) ==> t.wf() && t.chain() == heap_chain(leaves@) && t.spec_depth() == depth,
            r matches Err(e) ==> (e is CapacityExceeded ==> chain_representable(leaves@)
                && heap_chain(leaves@).len() > pow2(depth as nat)),
            r matches Err(e) ==> (e is PadDigest ==> chain_representable(leaves@)
                && heap_chain(leaves@).len() <= pow2(depth as nat)
                && !pad_free::<BabyBear>(heap_chain(leaves@))),
            r matches Err(e) ==> (!chain_representable(leaves@) <==> (e is LiveSentinel || e is DuplicateAddress || e is NotWellLinked)),
    {
        let copy = vstd::slice::slice_to_vec(leaves.as_slice());
        let chain = match build_chain(copy, "CanonicalHeapTree") {
            Ok(c) => c,
            Err(e) => {
                return Err(e);
            },
        };
        if !fits_capacity(chain.len(), depth) {
            return Err(HeapRootError::CapacityExceeded { leaves: chain.len() });
        }
        match check_pad_free::<BabyBear>(&chain, "CanonicalHeapTree") {
            Ok(()) => {},
            Err(e) => {
                return Err(e);
            },
        }
        Ok(Self::new(leaves, depth))
    }

    /// **The Merkle root.**
    pub fn root(&self) -> (r: BabyBear)
        requires
            self.wf(),
        ensures
            r == heap_root_of::<BabyBear>(self.chain(), self.spec_depth()),
    {
        node_or_empty(&self.levels, &self.empties, self.depth, 0, Ghost(self.sorted_leaves@))
    }

    /// The committed chain, sentinel included.
    pub fn sorted_leaves(&self) -> (r: &[HeapLeaf])
        ensures
            r@ == self.chain(),
    {
        self.sorted_leaves.as_slice()
    }

    /// The number of real entries: the leaves at neither sentinel address.
    pub fn num_entries(&self) -> (r: usize)
        requires
            self.wf(),
        ensures
            r == count_real(self.chain()),
            r == self.chain().len() - 1,
    {
        proof {
            lemma_count_real(self.sorted_leaves@, self.sorted_leaves@.len() as int);
            assert(self.sorted_leaves@.take(self.sorted_leaves@.len() as int) =~= self.sorted_leaves@);
        }
        count_real_leaves(&self.sorted_leaves)
    }

    /// The tree depth.
    pub fn depth(&self) -> (r: usize)
        ensures
            r == self.spec_depth(),
    {
        self.depth
    }

    /// The stored levels, bottom-up: level `k` holds the non-empty prefix of
    /// level `k`; level `depth` is `[root]`.
    pub fn levels(&self) -> (r: &[Vec<BabyBear>])
        requires
            self.wf(),
        ensures
            r@.len() == self.spec_depth() + 1,
            forall|k: int| 0 <= k <= self.spec_depth() ==> (#[trigger] r@[k])@ == heap_level::<BabyBear>(self.chain(), k as nat),
    {
        self.levels.as_slice()
    }

    /// The position of the leaf at address `key`, or `None` when absent.
    pub fn position_of(&self, key: BabyBear) -> (r: Option<usize>)
        requires
            self.wf(),
        ensures
            r is Some <==> addr_present(self.chain(), key),
            r matches Some(i) ==> i < self.chain().len() && i == addr_position(self.chain(), key)
                && self.chain()[i as int].addr == key,
    {
        find_addr(&self.sorted_leaves, key)
    }

    /// The membership path `(siblings, directions)` of a position inside the
    /// dense capacity `2^depth`; `None` outside it.
    pub fn prove_membership(&self, position: usize) -> (r: Option<(Vec<BabyBear>, Vec<u8>)>)
        requires
            self.wf(),
        ensures
            r is Some <==> position < pow2(self.spec_depth()),
            r matches Some(p) ==> p.0@ == heap_siblings::<BabyBear>(self.chain(), position as int, self.spec_depth())
                && p.1@ == path_directions(position as int, self.spec_depth()),
            r matches Some(p) ==> (position < self.chain().len() ==> recompose_path(
                BabyBear::spec_leaf(self.chain()[position as int]),
                p.0@,
                p.1@,
                node_fn::<BabyBear>(),
            ) == heap_root_of::<BabyBear>(self.chain(), self.spec_depth())),
    {
        if !below_capacity(position, self.depth) {
            return None;
        }
        let p = membership_path(&self.levels, &self.empties, self.depth, position, Ghost(self.sorted_leaves@));
        proof {
            if position < self.sorted_leaves@.len() {
                lemma_membership_recomposes(
                    leaf_digests::<BabyBear>(self.sorted_leaves@),
                    BabyBear::spec_pad(),
                    node_fn::<BabyBear>(),
                    position as int,
                    self.depth as nat,
                );
            }
        }
        Some(p)
    }
}

/// What an update witness for `leaf` against chain `c` at depth `depth`
/// carries: the committed leaf at `leaf.addr`, the rewritten leaf, that
/// position's membership path, the old root, and the new root, which is both
/// the new leaf folded up the shared path and the root of the rewritten chain.
pub open spec fn update_witness_spec(c: Seq<HeapLeaf>, depth: nat, leaf: HeapLeaf, w: HeapUpdateWitness) -> bool {
    let pos = addr_position(c, leaf.addr);
    &&& w.old_leaf == c[pos]
    &&& w.new_leaf == written_leaf(c[pos], leaf.value)
    &&& w.siblings@ == heap_siblings::<BabyBear>(c, pos, depth)
    &&& w.directions@ == path_directions(pos, depth)
    &&& w.old_root == heap_root_of::<BabyBear>(c, depth)
    &&& w.new_root == recompose_path(
        BabyBear::spec_leaf(w.new_leaf),
        w.siblings@,
        w.directions@,
        node_fn::<BabyBear>(),
    )
    &&& w.new_root == heap_root_of::<BabyBear>(c.update(pos, w.new_leaf), depth)
}

/// What an insert witness for `leaf` against chain `c` at depth `depth`
/// carries: the linked new leaf of the rebuilt chain, its membership path
/// there, the old root, and the rebuilt root, to which the path opens.
pub open spec fn insert_witness_spec(c: Seq<HeapLeaf>, depth: nat, leaf: HeapLeaf, w: HeapInsertWitness) -> bool {
    let nc = inserted_chain(c, leaf);
    let p = addr_position(nc, leaf.addr);
    &&& w.new_leaf == nc[p]
    &&& w.new_leaf.addr == leaf.addr
    &&& w.new_leaf.value == leaf.value
    &&& w.siblings@ == heap_siblings::<BabyBear>(nc, p, depth)
    &&& w.directions@ == path_directions(p, depth)
    &&& w.old_root == heap_root_of::<BabyBear>(c, depth)
    &&& w.new_root == heap_root_of::<BabyBear>(nc, depth)
    &&& recompose_path(
        BabyBear::spec_leaf(w.new_leaf),
        w.siblings@,
        w.directions@,
        node_fn::<BabyBear>(),
    ) == w.new_root
}

impl CanonicalHeapTree {
    /// **The in-place update witness** rewriting the value at
    /// `new_leaf.addr`; `None` when no leaf sits at that address. The
    /// pointer is held fixed.
    pub fn update_witness(&self, new_leaf: HeapLeaf) -> (r: Option<HeapUpdateWitness>)
        requires
            self.wf(),
        ensures
            r is Some <==> addr_present(self.chain(), new_leaf.addr),
            r matches Some(w) ==> update_witness_spec(self.chain(), self.spec_depth(), new_leaf, w),
    {
        let pos = match self.position_of(new_leaf.addr) {
            Some(p) => p,
            None => {
                return None;
            },
        };
        proof {
            self.lemma_wf();
        }
        let old_leaf = self.sorted_leaves[pos];
        let leaf = HeapLeaf { addr: new_leaf.addr, value: new_leaf.value, next_addr: old_leaf.next_addr };
        let (siblings, directions) = match self.prove_membership(pos) {
            Some(p) => p,
            None => {
                return None;
            },
        };
        let new_root = recompose_digest(leaf.digest(), siblings.as_slice(), directions.as_slice());
        proof {
            lemma_update_root::<BabyBear>(self.sorted_leaves@, self.depth as nat, pos as int, leaf);
        }
        Some(HeapUpdateWitness { old_leaf, new_leaf: leaf, siblings, directions, old_root: self.root(), new_root })
    }

    /// **The sorted-insert witness** for a fresh address: the tree is
    /// rebuilt with the new entry and the new leaf opened against the new
    /// root. `None` when the key is a sentinel address, at or above MAX,
    /// already present, or outside its predecessor's pointer gap.
    pub fn insert_witness(&self, new_leaf: HeapLeaf) -> (r: Option<HeapInsertWitness>)
        requires
            self.wf(),
            insertable(self.chain(), new_leaf.addr) ==> self.chain().len() + 1 <= pow2(self.spec_depth())
                && pad_free::<BabyBear>(inserted_chain(self.chain(), new_leaf)),
        ensures
            r is Some <==> insertable(self.chain(), new_leaf.addr),
            r matches Some(w) ==> insert_witness_spec(self.chain(), self.spec_depth(), new_leaf, w),
    {
        let key = new_leaf.addr;
        let ku = key.as_u32();
        if ku == 0 || ku >= SENTINEL_MAX_VALUE {
            return None;
        }
        if self.position_of(key).is_some() {
            return None;
        }
        let ghost c = self.sorted_leaves@;
        let pos = partition_le(&self.sorted_leaves, ku);
        proof {
            self.lemma_wf();
            BabyBear::lemma_from_spec_value(SENTINEL_MAX_VALUE);
        }
        if pos == 0 {
            return None;
        }
        let low = self.sorted_leaves[pos - 1];
        proof {
            if addr_of(low) == ku {
                BabyBear::lemma_value_injective(low.addr, key);
                assert(c[pos - 1].addr == key);
            }
        }
        if !(low.addr.as_u32() < ku && ku < low.next_addr.as_u32()) {
            return None;
        }
        let mut new_real = tail_leaves(&self.sorted_leaves);
        new_real.push(new_leaf);
        proof {
            lemma_insert_representable(c, new_leaf);
        }
        let new_tree = CanonicalHeapTree::new(new_real, self.depth);
        let new_pos = match new_tree.position_of(key) {
            Some(p) => p,
            None => {
                return None;
            },
        };
        proof {
            new_tree.lemma_wf();
        }
        let (siblings, directions) = match new_tree.prove_membership(new_pos) {
            Some(p) => p,
            None => {
                return None;
            },
        };
        Some(HeapInsertWitness {
            new_leaf: new_tree.sorted_leaves[new_pos],
            siblings,
            directions,
            old_root: self.root(),
            new_root: new_tree.root(),
        })
    }

    /// The sorted-insert witness with its commit guards tested first: `Err`
    /// when the key is insertable but the grown chain would exceed `2^depth`
    /// leaves or hold a leaf hashing to the padding digest; otherwise what
    /// [`CanonicalHeapTree::insert_witness`] gives.
    pub fn try_insert_witness(&self, new_leaf: HeapLeaf) -> (r: Result<Option<HeapInsertWitness>, HeapRootError>)
        requires
            self.wf(),
        ensures
            r is Err <==> (insertable(self.chain(), new_leaf.addr) && !(self.chain().len() + 1 <= pow2(self.spec_depth())
                && pad_free::<BabyBear>(inserted_chain(self.chain(), new_leaf)))),
            r matches Ok(o) ==> (o is Some <==> insertable(self.chain(), new_leaf.addr)),
            r matches Ok(o) ==> (o matches Some(w) ==> insert_witness_spec(self.chain(), self.spec_depth(), new_leaf, w)),
            r matches Err(e) ==> (e is CapacityExceeded <==> self.chain().len() + 1 > pow2(self.spec_depth())),
            r matches Err(e) ==> (e is CapacityExceeded || e is PadDigest),
    {
        let ku = new_leaf.addr.as_u32();
        if ku != 0 && ku < SENTINEL_MAX_VALUE && self.position_of(new_leaf.addr).is_none() {
            proof {
                self.lemma_wf();
            }
            match check_insert_fits::<BabyBear>(&self.sorted_leaves, new_leaf, self.depth, "CanonicalHeapTree") {
                Ok(()) => {},
                Err(e) => {
                    return Err(e);
                },
            }
        }
        Ok(self.insert_witness(new_leaf))
    }

    /// **Apply an in-place value write** at an existing address, recomputing
    /// only the leaf-to-root path; returns the new root, or `None` (and
    /// leaves the tree untouched) when no leaf sits at `addr`.
    pub fn apply_value_update(&mut self, addr: BabyBear, value: BabyBear) -> (r: Option<BabyBear>)
        requires
            old(self).wf(),
        ensures
            final(self).wf(),
            r is Some <==> addr_present(old(self).chain(), addr),
            r is None ==> *final(self) == *old(self),
            r matches Some(root) ==> final(self).chain() == old(self).chain().update(
                addr_position(old(self).chain(), addr),
                written_leaf(old(self).chain()[addr_position(old(self).chain(), addr)], value),
            ) && final(self).spec_depth() == old(self).spec_depth()
                && root == heap_root_of::<BabyBear>(final(self).chain(), final(self).spec_depth()),
    {
        let pos = match self.position_of(addr) {
            Some(p) => p,
            None => {
                return None;
            },
        };
        let ghost c = self.sorted_leaves@;
        let old_leaf = self.sorted_leaves[pos];
        let leaf = HeapLeaf { addr: old_leaf.addr, value, next_addr: old_leaf.next_addr };
        self.sorted_leaves.set(pos, leaf);
        let d = leaf.digest();
        let root = update_path(&mut self.levels, &self.empties, self.depth, pos, d, Ghost(c), Ghost(leaf));
        proof {
            lemma_write_keeps_linked(c, pos as int, value);
        }
        Some(root)
    }
}

/// **The canonical heap root** of a leaf list at [`HEAP_TREE_DEPTH`].
pub fn compute_heap_root(leaves: Vec<HeapLeaf>) -> (r: BabyBear)
    requires
        chain_representable(leaves@),
        heap_chain(leaves@).len() <= pow2(HEAP_TREE_DEPTH as nat),
        pad_free::<BabyBear>(heap_chain(leaves@)),
    ensures
        r == heap_root_of::<BabyBear>(heap_chain(leaves@), HEAP_TREE_DEPTH as nat),
{
    CanonicalHeapTree::new(leaves, HEAP_TREE_DEPTH).root()
}

/// The canonical heap root of raw `((coll, key), value)` entries, each
/// addressed by [`heap_addr`].
pub fn compute_heap_root_entries(entries: &[((BabyBear, BabyBear), BabyBear)]) -> (r: BabyBear)
    requires
        chain_representable(entry_leaves(entries@)),
        heap_chain(entry_leaves(entries@)).len() <= pow2(HEAP_TREE_DEPTH as nat),
        pad_free::<BabyBear>(heap_chain(entry_leaves(entries@))),
    ensures
        r == heap_root_of::<BabyBear>(heap_chain(entry_leaves(entries@)), HEAP_TREE_DEPTH as nat),
{
    compute_heap_root(leaves_of_entries(entries))
}

/// The empty list commits the lone MIN sentinel.
pub proof fn lemma_empty_chain()
    ensures
        chain_representable(Seq::<HeapLeaf>::empty()),
        heap_chain(Seq::<HeapLeaf>::empty()).len() == 1,
        heap_chain(Seq::<HeapLeaf>::empty()).len() <= pow2(HEAP_TREE_DEPTH as nat),
{
    let e = Seq::<HeapLeaf>::empty();
    assert(crate::heap_leaf::strip_sentinels(e) =~= e);
    crate::heap_leaf::lemma_heap_chain_is_chain(e);
    vstd::arithmetic::power2::lemma_pow2_pos(HEAP_TREE_DEPTH as nat);
}

/// The canonical heap root of the empty heap (only the MIN sentinel).
pub fn empty_heap_root() -> (r: BabyBear)
    requires
        pad_free::<BabyBear>(heap_chain(Seq::<HeapLeaf>::empty())),
    ensures
        r == heap_root_of::<BabyBear>(heap_chain(Seq::<HeapLeaf>::empty()), HEAP_TREE_DEPTH as nat),
{
    proof {
        lemma_empty_chain();
    }
    let v: Vec<HeapLeaf> = Vec::new();
    compute_heap_root(v)
}

// ---------------------------------------------------------------------------
// The eight-felt tree
// ---------------------------------------------------------------------------

/// A faithful eight-felt root: a genuine eight-felt node digest.
#[derive(Clone, Copy, Debug, PartialEq, Eq)]
pub struct Faithful8 {
    limbs: [BabyBear; 8],
}

impl Faithful8 {
    /// The eight lanes of the root.
    pub closed spec fn spec_limbs(&self) -> [BabyBear; 8] {
        self.limbs
    }

    /// Wrap an eight-felt tree root.
    pub fn from_root8(root: [BabyBear; 8]) -> (r: Faithful8)
        ensures
            r.spec_limbs() == root,
    {
        Faithful8 { limbs: root }
    }

    /// The eight lanes of the root.
    pub fn limbs(&self) -> (r: [BabyBear; 8])
        ensures
            r == self.spec_limbs(),
    {
        self.limbs
    }
}

/// The eight-felt empty-subtree root at `level` (`0`: the all-zero padding
/// digest), for the levels of the canonical depth.
pub fn heap_empty_subtree_root_8(level: usize) -> (r: [BabyBear; 8])
    requires
        level <= HEAP_TREE_DEPTH,
    ensures
        r == empty_root_of::<[BabyBear; 8]>(level as nat),
{
    empty_root_at::<[BabyBear; 8]>(level)
}

/// **`recompose_membership_8`** — fold an eight-felt leaf digest up a
/// `(sibling, direction)` path (`0`: the running node is the left child),
/// as far as both run.
pub fn recompose_membership_8(leaf: [BabyBear; 8], siblings: &[[BabyBear; 8]], directions: &[u8]) -> (r: [BabyBear; 8])
    ensures
        r == recompose(leaf, siblings@, directions@, node_fn::<[BabyBear; 8]>(), path_len(siblings@, directions@)),
{
    recompose_digest(leaf, siblings, directions)
}

/// The canonical heap tree at eight-felt width, with its append cursor: the
/// next physical slot an append-at-free-index insert would occupy.
#[derive(Clone, Debug)]
pub struct CanonicalHeapTree8 {
    levels: Vec<Vec<[BabyBear; 8]>>,
    sorted_leaves: Vec<HeapLeaf>,
    depth: usize,
    next_free_index: usize,
    empties: Vec<[BabyBear; 8]>,
}

/// The eight-felt in-place update witness.
#[derive(Clone, Debug)]
pub struct HeapUpdateWitness8 {
    /// The committed leaf.
    pub old_leaf: HeapLeaf,
    /// The rewritten leaf: same address, same pointer, new value.
    pub new_leaf: HeapLeaf,
    /// Eight-felt sibling digests, bottom-up.
    pub siblings: Vec<[BabyBear; 8]>,
    /// Direction bits (`0`: the path node is a left child).
    pub directions: Vec<u8>,
    /// The authenticated old root.
    pub old_root: [BabyBear; 8],
    /// The recomposed new root.
    pub new_root: [BabyBear; 8],
}

/// The eight-felt sorted-insert witness.
#[derive(Clone, Debug)]
pub struct HeapInsertWitness8 {
    /// The inserted leaf, linked into the chain.
    pub new_leaf: HeapLeaf,
    /// Eight-felt sibling digests, bottom-up.
    pub siblings: Vec<[BabyBear; 8]>,
    /// Direction bits.
    pub directions: Vec<u8>,
    /// The pre-insert root.
    pub old_root: [BabyBear; 8],
    /// The post-insert root.
    pub new_root: [BabyBear; 8],
}

/// The append-at-free-index insert witness: the low leaf's pointer rewritten
/// in place to the new key, the new leaf appended at the free slot.
#[derive(Clone, Debug)]
pub struct AafiInsertWitness8 {
    /// The physical slot the new leaf is appended at.
    pub free_index: usize,
    /// The position of the low (bracketing) leaf.
    pub low_position: usize,
    /// The low leaf before the update (`low.addr < k < low.next_addr`).
    pub low_leaf_old: HeapLeaf,
    /// The low leaf after the pointer update (`next_addr := k`).
    pub low_leaf_new: HeapLeaf,
    /// The appended leaf `(k, value, low's old pointer)`.
    pub new_leaf: HeapLeaf,
    /// The physical layout after the insert.
    pub append_order_after: Vec<HeapLeaf>,
    /// The low leaf's membership siblings against the old root.
    pub low_siblings: Vec<[BabyBear; 8]>,
    /// Direction bits of the low leaf's opening.
    pub low_directions: Vec<u8>,
    /// The pre-insert (sorted) root.
    pub old_root: [BabyBear; 8],
    /// The root of the post-insert physical layout.
    pub new_root: [BabyBear; 8],
}

/// What an eight-felt update witness carries (see [`update_witness_spec`]).
pub open spec fn update_witness8_spec(c: Seq<HeapLeaf>, depth: nat, leaf: HeapLeaf, w: HeapUpdateWitness8) -> bool {
    let pos = addr_position(c, leaf.addr);
    &&& w.old_leaf == c[pos]
    &&& w.new_leaf == written_leaf(c[pos], leaf.value)
    &&& w.siblings@ == heap_siblings::<[BabyBear; 8]>(c, pos, depth)
    &&& w.directions@ == path_directions(pos, depth)
    &&& w.old_root == heap_root_of::<[BabyBear; 8]>(c, depth)
    &&& w.new_root == recompose_path(
        <[BabyBear; 8]>::spec_leaf(w.new_leaf),
        w.siblings@,
        w.directions@,
        node_fn::<[BabyBear; 8]>(),
    )
    &&& w.new_root == heap_root_of::<[BabyBear; 8]>(c.update(pos, w.new_leaf), depth)
}

/// What an eight-felt insert witness carries (see [`insert_witness_spec`]).
pub open spec fn insert_witness8_spec(c: Seq<HeapLeaf>, depth: nat, leaf: HeapLeaf, w: HeapInsertWitness8) -> bool {
    let nc = inserted_chain(c, leaf);
    let p = addr_position(nc, leaf.addr);
    &&& w.new_leaf == nc[p]
    &&& w.new_leaf.addr == leaf.addr
    &&& w.new_leaf.value == leaf.value
    &&& w.siblings@ == heap_siblings::<[BabyBear; 8]>(nc, p, depth)
    &&& w.directions@ == path_directions(p, depth)
    &&& w.old_root == heap_root_of::<[BabyBear; 8]>(c, depth)
    &&& w.new_root == heap_root_of::<[BabyBear; 8]>(nc, depth)
    &&& recompose_path(
        <[BabyBear; 8]>::spec_leaf(w.new_leaf),
        w.siblings@,
        w.directions@,
        node_fn::<[BabyBear; 8]>(),
    ) == w.new_root
}

/// The low leaf of `key` in a chain: the last leaf below `key`.
pub open spec fn low_position(c: Seq<HeapLeaf>, key: BabyBear) -> int {
    choose|i: int|
        0 <= i < c.len() && addr_of(#[trigger] c[i]) < key.value() && (i + 1 == c.len() || addr_of(c[i + 1]) > key.value())
}

/// The low leaf with its pointer rewritten to `key`.
pub open spec fn aafi_low_new(c: Seq<HeapLeaf>, key: BabyBear) -> HeapLeaf {
    let low = c[low_position(c, key)];
    HeapLeaf { addr: low.addr, value: low.value, next_addr: key }
}

/// The appended leaf `(key, value, low's old pointer)`.
pub open spec fn aafi_appended(c: Seq<HeapLeaf>, key: BabyBear, value: BabyBear) -> HeapLeaf {
    HeapLeaf { addr: key, value, next_addr: c[low_position(c, key)].next_addr }
}

/// The physical layout after an append-at-free-index insert: the low leaf
/// rewritten in place, the new leaf appended.
pub open spec fn aafi_layout(c: Seq<HeapLeaf>, key: BabyBear, value: BabyBear) -> Seq<HeapLeaf> {
    c.update(low_position(c, key), aafi_low_new(c, key)).push(aafi_appended(c, key, value))
}

/// What an append-at-free-index witness carries.
pub open spec fn aafi_witness_spec(c: Seq<HeapLeaf>, depth: nat, leaf: HeapLeaf, w: AafiInsertWitness8) -> bool {
    let key = leaf.addr;
    let low = low_position(c, key);
    &&& w.free_index == c.len()
    &&& w.low_position == low
    &&& w.low_leaf_old == c[low]
    &&& w.low_leaf_new == aafi_low_new(c, key)
    &&& w.new_leaf == aafi_appended(c, key, leaf.value)
    &&& w.append_order_after@ == aafi_layout(c, key, leaf.value)
    &&& w.low_siblings@ == heap_siblings::<[BabyBear; 8]>(c, low, depth)
    &&& w.low_directions@ == path_directions(low, depth)
    &&& w.old_root == heap_root_of::<[BabyBear; 8]>(c, depth)
    &&& w.new_root == heap_root_of::<[BabyBear; 8]>(aafi_layout(c, key, leaf.value), depth)
    &&& recompose_path(
        <[BabyBear; 8]>::spec_leaf(w.low_leaf_old),
        w.low_siblings@,
        w.low_directions@,
        node_fn::<[BabyBear; 8]>(),
    ) == w.old_root
}

/// In a linked chain, an insertable key has exactly one low leaf.
pub proof fn lemma_low_position(c: Seq<HeapLeaf>, key: BabyBear, i: int)
    requires
        crate::heap_leaf::strictly_sorted(c),
        0 <= i < c.len(),
        addr_of(c[i]) < key.value(),
        i + 1 == c.len() || addr_of(c[i + 1]) > key.value(),
    ensures
        low_position(c, key) == i,
{
    let j = low_position(c, key);
    assert(0 <= j < c.len() && addr_of(c[j]) < key.value() && (j + 1 == c.len() || addr_of(c[j + 1]) > key.value()));
    if j < i {
        if j + 1 < i {
            assert(addr_of(c[j + 1]) < addr_of(c[i]));
        }
    }
    if i < j {
        if i + 1 < j {
            assert(addr_of(c[i + 1]) < addr_of(c[j]));
        }
    }
}

/// The root of a physical (unsorted) leaf layout: the same sparse fold,
/// over the leaves at their vector positions.
pub fn fold_append_order_8(leaves: &Vec<HeapLeaf>, depth: usize) -> (r: [BabyBear; 8])
    requires
        pad_free::<[BabyBear; 8]>(leaves@),
    ensures
        r == heap_root_of::<[BabyBear; 8]>(leaves@, depth as nat),
{
    if leaves.len() == 0 {
        proof {
            assert(leaf_digests::<[BabyBear; 8]>(leaves@) =~= Seq::<[BabyBear; 8]>::empty());
            crate::merkle::lemma_level_empty(<[BabyBear; 8]>::spec_pad(), node_fn::<[BabyBear; 8]>(), depth as nat);
        }
        return empty_root_at::<[BabyBear; 8]>(depth);
    }
    let (levels, empties) = build_levels::<[BabyBear; 8]>(leaves, depth);
    node_or_empty(&levels, &empties, depth, 0, Ghost(leaves@))
}

/// The membership path of `position` in the physical layout's fold.
fn fold_append_order_membership_8(leaves: &Vec<HeapLeaf>, position: usize, depth: usize) -> (r: (Vec<[BabyBear; 8]>, Vec<u8>))
    ensures
        r.0@ == heap_siblings::<[BabyBear; 8]>(leaves@, position as int, depth as nat),
        r.1@ == path_directions(position as int, depth as nat),
{
    let (levels, empties) = build_levels::<[BabyBear; 8]>(leaves, depth);
    membership_path(&levels, &empties, depth, position, Ghost(leaves@))
}

impl CanonicalHeapTree8 {
    /// The tree is built over a linked chain that fits its capacity, its
    /// stored levels are the eight-felt sparse fold of the chain, and the
    /// append cursor is one past the last leaf.
    pub closed spec fn wf(&self) -> bool {
        &&& linked_chain(self.sorted_leaves@)
        &&& self.sorted_leaves@.len() <= pow2(self.depth as nat)
        &&& levels_match::<[BabyBear; 8]>(self.levels@, self.empties@, self.sorted_leaves@, self.depth as nat)
        &&& self.next_free_index == self.sorted_leaves@.len()
    }

    /// The committed chain, sentinel included.
    pub closed spec fn chain(&self) -> Seq<HeapLeaf> {
        self.sorted_leaves@
    }

    /// The tree depth.
    pub closed spec fn spec_depth(&self) -> nat {
        self.depth as nat
    }

    /// The append cursor.
    pub closed spec fn spec_next_free_index(&self) -> nat {
        self.next_free_index as nat
    }

    /// What well-formedness says of the chain and the cursor.
    pub proof fn lemma_wf(&self)
        requires
            self.wf(),
        ensures
            linked_chain(self.chain()),
            self.chain().len() <= pow2(self.spec_depth()),
            self.spec_next_free_index() == self.chain().len(),
    {
    }

    /// **Build the eight-felt canonical heap tree** over a leaf list.
    pub fn new(leaves: Vec<HeapLeaf>, depth: usize) -> (t: Self)
        requires
            chain_representable(leaves@),
            heap_chain(leaves@).len() <= pow2(depth as nat),
            pad_free::<[BabyBear; 8]>(heap_chain(leaves@)),
        ensures
            t.wf(),
            t.chain() == heap_chain(leaves@),
            t.spec_depth() == depth,
    {
        let chain = build_chain(leaves, "CanonicalHeapTree8").unwrap();
        proof {
            lemma_heap_chain_linked(chain@);
        }
        let (levels, empties) = build_levels::<[BabyBear; 8]>(&chain, depth);
        let n = chain.len();
        CanonicalHeapTree8 { levels, sorted_leaves: chain, depth, next_free_index: n, empties }
    }

    /// Build the tree, or report why the leaf list cannot be committed (see
    /// [`CanonicalHeapTree::try_new`]).
    pub fn try_new(leaves: Vec<HeapLeaf>, depth: usize) -> (r: Result<Self, HeapRootError>)
        ensures
            r is Ok <==> (chain_representable(leaves@) && heap_chain(leaves@).len() <= pow2(depth as nat)
                && pad_free::<[BabyBear; 8]>(heap_chain(leaves@))),
            r matches Ok(t) ==> t.wf() && t.chain() == heap_chain(leaves@) && t.spec_depth() == depth,
            r matches Err(e) ==> (e is CapacityExceeded ==> chain_representable(leaves@)
                && heap_chain(leaves@).len() > pow2(depth as nat)),
            r matches Err(e) ==> (e is PadDigest ==> chain_representable(leaves@)
                && heap_chain(leaves@).len() <= pow2(depth as nat)
                && !pad_free::<[BabyBear; 8]>(heap_chain(leaves@))),
            r matches Err(e) ==> (!chain_representable(leaves@) <==> (e is LiveSentinel || e is DuplicateAddress || e is NotWellLinked)),
    {
        let copy = vstd::slice::slice_to_vec(leaves.as_slice());
        let chain = match build_chain(copy, "CanonicalHeapTree8") {
            Ok(c) => c,
            Err(e) => {
                return Err(e);
            },
        };
        if !fits_capacity(chain.len(), depth) {
            return Err(HeapRootError::CapacityExceeded { leaves: chain.len() });
        }
        match check_pad_free::<[BabyBear; 8]>(&chain, "CanonicalHeapTree8") {
            Ok(()) => {},
            Err(e) => {
                return Err(e);
            },
        }
        Ok(Self::new(leaves, depth))
    }

    /// **The eight-felt Merkle root.**
    pub fn root8(&self) -> (r: Faithful8)
        requires
            self.wf(),
        ensures
            r.spec_limbs() == heap_root_of::<[BabyBear; 8]>(self.chain(), self.spec_depth()),
    {
        Faithful8::from_root8(node_or_empty(&self.levels, &self.empties, self.depth, 0, Ghost(self.sorted_leaves@)))
    }

    /// The committed chain, sentinel included.
    pub fn sorted_leaves(&self) -> (r: &[HeapLeaf])
        ensures
            r@ == self.chain(),
    {
        self.sorted_leaves.as_slice()
    }

    /// The position of the leaf at address `key`, or `None` when absent.
    pub fn position_of(&self, key: BabyBear) -> (r: Option<usize>)
        requires
            self.wf(),
        ensures
            r is Some <==> addr_present(self.chain(), key),
            r matches Some(i) ==> i < self.chain().len() && i == addr_position(self.chain(), key)
                && self.chain()[i as int].addr == key,
    {
        find_addr(&self.sorted_leaves, key)
    }

    /// The eight-felt membership path of a position inside the dense
    /// capacity; `None` outside it.
    pub fn prove_membership(&self, position: usize) -> (r: Option<(Vec<[BabyBear; 8]>, Vec<u8>)>)
        requires
            self.wf(),
        ensures
            r is Some <==> position < pow2(self.spec_depth()),
            r matches Some(p) ==> p.0@ == heap_siblings::<[BabyBear; 8]>(self.chain(), position as int, self.spec_depth())
                && p.1@ == path_directions(position as int, self.spec_depth()),
            r matches Some(p) ==> (position < self.chain().len() ==> recompose_path(
                <[BabyBear; 8]>::spec_leaf(self.chain()[position as int]),
                p.0@,
                p.1@,
                node_fn::<[BabyBear; 8]>(),
            ) == heap_root_of::<[BabyBear; 8]>(self.chain(), self.spec_depth())),
    {
        if !below_capacity(position, self.depth) {
            return None;
        }
        let p = membership_path(&self.levels, &self.empties, self.depth, position, Ghost(self.sorted_leaves@));
        proof {
            if position < self.sorted_leaves@.len() {
                lemma_membership_recomposes(
                    leaf_digests::<[BabyBear; 8]>(self.sorted_leaves@),
                    <[BabyBear; 8]>::spec_pad(),
                    node_fn::<[BabyBear; 8]>(),
                    position as int,
                    self.depth as nat,
                );
            }
        }
        Some(p)
    }

    /// **The eight-felt in-place update witness** (see
    /// [`CanonicalHeapTree::update_witness`]).
    pub fn update_witness(&self, new_leaf: HeapLeaf) -> (r: Option<HeapUpdateWitness8>)
        requires
            self.wf(),
        ensures
            r is Some <==> addr_present(self.chain(), new_leaf.addr),
            r matches Some(w) ==> update_witness8_spec(self.chain(), self.spec_depth(), new_leaf, w),
    {
        let pos = match self.position_of(new_leaf.addr) {
            Some(p) => p,
            None => {
                return None;
            },
        };
        proof {
            self.lemma_wf();
        }
        let old_leaf = self.sorted_leaves[pos];
        let leaf = HeapLeaf { addr: new_leaf.addr, value: new_leaf.value, next_addr: old_leaf.next_addr };
        let (siblings, directions) = match self.prove_membership(pos) {
            Some(p) => p,
            None => {
                return None;
            },
        };
        let ld = leaf.digest8();
        proof {
            lemma_digest8_of(ld);
        }
        let new_root = recompose_membership_8(ld, siblings.as_slice(), directions.as_slice());
        proof {
            lemma_update_root::<[BabyBear; 8]>(self.sorted_leaves@, self.depth as nat, pos as int, leaf);
        }
        let old_root = self.root8().limbs();
        Some(HeapUpdateWitness8 { old_leaf, new_leaf: leaf, siblings, directions, old_root, new_root })
    }

    /// **The eight-felt sorted-insert witness** (see
    /// [`CanonicalHeapTree::insert_witness`]).
    #[verifier::rlimit(40)]
    pub fn insert_witness(&self, new_leaf: HeapLeaf) -> (r: Option<HeapInsertWitness8>)
        requires
            self.wf(),
            insertable(self.chain(), new_leaf.addr) ==> self.chain().len() + 1 <= pow2(self.spec_depth())
                && pad_free::<[BabyBear; 8]>(inserted_chain(self.chain(), new_leaf)),
        ensures
            r is Some <==> insertable(self.chain(), new_leaf.addr),
            r matches Some(w) ==> insert_witness8_spec(self.chain(), self.spec_depth(), new_leaf, w),
    {
        let key = new_leaf.addr;
        let ku = key.as_u32();
        if ku == 0 || ku >= SENTINEL_MAX_VALUE {
            return None;
        }
        if self.position_of(key).is_some() {
            return None;
        }
        let ghost c = self.sorted_leaves@;
        let pos = partition_le(&self.sorted_leaves, ku);
        proof {
            self.lemma_wf();
            BabyBear::lemma_from_spec_value(SENTINEL_MAX_VALUE);
        }
        if pos == 0 {
            return None;
        }
        let low = self.sorted_leaves[pos - 1];
        proof {
            if addr_of(low) == ku {
                BabyBear::lemma_value_injective(low.addr, key);
                assert(c[pos - 1].addr == key);
            }
        }
        if !(low.addr.as_u32() < ku && ku < low.next_addr.as_u32()) {
            return None;
        }
        let mut new_real = tail_leaves(&self.sorted_leaves);
        new_real.push(new_leaf);
        proof {
            lemma_insert_representable(c, new_leaf);
        }
        let new_tree = CanonicalHeapTree8::new(new_real, self.depth);
        let new_pos = match new_tree.position_of(key) {
            Some(p) => p,
            None => {
                return None;
            },
        };
        proof {
            new_tree.lemma_wf();
        }
        let (siblings, directions) = match new_tree.prove_membership(new_pos) {
            Some(p) => p,
            None => {
                return None;
            },
        };
        let old_root = self.root8().limbs();
        let new_root = new_tree.root8().limbs();
        Some(HeapInsertWitness8 { new_leaf: new_tree.sorted_leaves[new_pos], siblings, directions, old_root, new_root })
    }

    /// The eight-felt sorted-insert witness with its commit guards tested
    /// first (see [`CanonicalHeapTree::try_insert_witness`]).
    pub fn try_insert_witness(&self, new_leaf: HeapLeaf) -> (r: Result<Option<HeapInsertWitness8>, HeapRootError>)
        requires
            self.wf(),
        ensures
            r is Err <==> (insertable(self.chain(), new_leaf.addr) && !(self.chain().len() + 1 <= pow2(self.spec_depth())
                && pad_free::<[BabyBear; 8]>(inserted_chain(self.chain(), new_leaf)))),
            r matches Ok(o) ==> (o is Some <==> insertable(self.chain(), new_leaf.addr)),
            r matches Ok(o) ==> (o matches Some(w) ==> insert_witness8_spec(self.chain(), self.spec_depth(), new_leaf, w)),
            r matches Err(e) ==> (e is CapacityExceeded <==> self.chain().len() + 1 > pow2(self.spec_depth())),
            r matches Err(e) ==> (e is CapacityExceeded || e is PadDigest),
    {
        let ku = new_leaf.addr.as_u32();
        if ku != 0 && ku < SENTINEL_MAX_VALUE && self.position_of(new_leaf.addr).is_none() {
            proof {
                self.lemma_wf();
            }
            match check_insert_fits::<[BabyBear; 8]>(&self.sorted_leaves, new_leaf, self.depth, "CanonicalHeapTree8") {
                Ok(()) => {},
                Err(e) => {
                    return Err(e);
                },
            }
        }
        Ok(self.insert_witness(new_leaf))
    }

    /// The append cursor: the next physical slot an append-at-free-index
    /// insert would occupy.
    pub fn next_free_index(&self) -> (r: usize)
        ensures
            r == self.spec_next_free_index(),
    {
        self.next_free_index
    }

    /// **The append-at-free-index insert witness**: find the low leaf whose
    /// pointer gap brackets the key, rewrite its pointer to the key in place,
    /// and append `(key, value, low's old pointer)` at the free slot. The
    /// sorted tree is not touched. `None` exactly when the sorted insert
    /// refuses the key.
    pub fn insert_witness_aafi(&self, new_leaf: HeapLeaf) -> (r: Option<AafiInsertWitness8>)
        requires
            self.wf(),
            insertable(self.chain(), new_leaf.addr) ==> pad_free::<[BabyBear; 8]>(
                aafi_layout(self.chain(), new_leaf.addr, new_leaf.value),
            ),
        ensures
            r is Some <==> insertable(self.chain(), new_leaf.addr),
            r matches Some(w) ==> aafi_witness_spec(self.chain(), self.spec_depth(), new_leaf, w),
    {
        let key = new_leaf.addr;
        let ku = key.as_u32();
        if ku == 0 || ku >= SENTINEL_MAX_VALUE {
            return None;
        }
        if self.position_of(key).is_some() {
            return None;
        }
        let ghost c = self.sorted_leaves@;
        proof {
            self.lemma_wf();
            BabyBear::lemma_from_spec_value(SENTINEL_MAX_VALUE);
        }
        let pred = partition_le(&self.sorted_leaves, ku);
        if pred == 0 {
            return None;
        }
        let low_position = pred - 1;
        let low_leaf_old = self.sorted_leaves[low_position];
        proof {
            if addr_of(low_leaf_old) == ku {
                BabyBear::lemma_value_injective(low_leaf_old.addr, key);
                assert(c[low_position as int].addr == key);
            }
        }
        if !(low_leaf_old.addr.as_u32() < ku && ku < low_leaf_old.next_addr.as_u32()) {
            return None;
        }
        proof {
            lemma_low_position(c, key, low_position as int);
        }
        let low_leaf_new = HeapLeaf { addr: low_leaf_old.addr, value: low_leaf_old.value, next_addr: key };
        let appended = HeapLeaf { addr: key, value: new_leaf.value, next_addr: low_leaf_old.next_addr };
        let free_index = self.next_free_index;
        let mut append_order_after = vstd::slice::slice_to_vec(self.sorted_leaves.as_slice());
        append_order_after.set(low_position, low_leaf_new);
        append_order_after.push(appended);
        let (low_siblings, low_directions) = match self.prove_membership(low_position) {
            Some(p) => p,
            None => {
                return None;
            },
        };
        let new_root = fold_append_order_8(&append_order_after, self.depth);
        let old_root = self.root8().limbs();
        Some(AafiInsertWitness8 {
            free_index,
            low_position,
            low_leaf_old,
            low_leaf_new,
            new_leaf: appended,
            append_order_after,
            low_siblings,
            low_directions,
            old_root,
            new_root,
        })
    }

    /// The append-at-free-index witness with its padding guard tested first:
    /// `Err` when the key is insertable but a leaf of the rewritten layout
    /// hashes to the padding digest; otherwise what
    /// [`CanonicalHeapTree8::insert_witness_aafi`] gives.
    pub fn try_insert_witness_aafi(&self, new_leaf: HeapLeaf) -> (r: Result<Option<AafiInsertWitness8>, HeapRootError>)
        requires
            self.wf(),
        ensures
            r is Err <==> (insertable(self.chain(), new_leaf.addr) && !pad_free::<[BabyBear; 8]>(
                aafi_layout(self.chain(), new_leaf.addr, new_leaf.value),
            )),
            r matches Ok(o) ==> (o is Some <==> insertable(self.chain(), new_leaf.addr)),
            r matches Ok(o) ==> (o matches Some(w) ==> aafi_witness_spec(self.chain(), self.spec_depth(), new_leaf, w)),
            r matches Err(e) ==> e is PadDigest,
    {
        let key = new_leaf.addr;
        let ku = key.as_u32();
        if ku != 0 && ku < SENTINEL_MAX_VALUE && self.position_of(key).is_none() {
            let ghost c = self.sorted_leaves@;
            proof {
                self.lemma_wf();
                BabyBear::lemma_from_spec_value(SENTINEL_MAX_VALUE);
            }
            let pred = partition_le(&self.sorted_leaves, ku);
            let low_position = pred - 1;
            let low = self.sorted_leaves[low_position];
            proof {
                if addr_of(low) == ku {
                    BabyBear::lemma_value_injective(low.addr, key);
                    assert(c[low_position as int].addr == key);
                }
                lemma_low_position(c, key, low_position as int);
            }
            let mut layout = vstd::slice::slice_to_vec(self.sorted_leaves.as_slice());
            layout.set(low_position, HeapLeaf { addr: low.addr, value: low.value, next_addr: key });
            layout.push(HeapLeaf { addr: key, value: new_leaf.value, next_addr: low.next_addr });
            assert(layout@ =~= aafi_layout(c, key, new_leaf.value));
            match check_pad_free::<[BabyBear; 8]>(&layout, "CanonicalHeapTree8") {
                Ok(()) => {},
                Err(e) => {
                    return Err(e);
                },
            }
        }
        Ok(self.insert_witness_aafi(new_leaf))
    }

    /// **Apply an in-place value write** at an existing address at eight-felt
    /// width (see [`CanonicalHeapTree::apply_value_update`]).
    pub fn apply_value_update(&mut self, addr: BabyBear, value: BabyBear) -> (r: Option<Faithful8>)
        requires
            old(self).wf(),
        ensures
            final(self).wf(),
            r is Some <==> addr_present(old(self).chain(), addr),
            r is None ==> *final(self) == *old(self),
            r matches Some(root) ==> final(self).chain() == old(self).chain().update(
                addr_position(old(self).chain(), addr),
                written_leaf(old(self).chain()[addr_position(old(self).chain(), addr)], value),
            ) && final(self).spec_depth() == old(self).spec_depth()
                && root.spec_limbs() == heap_root_of::<[BabyBear; 8]>(final(self).chain(), final(self).spec_depth()),
    {
        let pos = match self.position_of(addr) {
            Some(p) => p,
            None => {
                return None;
            },
        };
        let ghost c = self.sorted_leaves@;
        let old_leaf = self.sorted_leaves[pos];
        let leaf = HeapLeaf { addr: old_leaf.addr, value, next_addr: old_leaf.next_addr };
        self.sorted_leaves.set(pos, leaf);
        let d = <[BabyBear; 8]>::leaf(&leaf);
        let root = update_path(&mut self.levels, &self.empties, self.depth, pos, d, Ghost(c), Ghost(leaf));
        proof {
            lemma_write_keeps_linked(c, pos as int, value);
        }
        Some(Faithful8::from_root8(root))
    }
}

/// The last leaf of `s` at address `a`, if any.
pub open spec fn lookup_addr(s: Seq<HeapLeaf>, a: int) -> Option<HeapLeaf>
    decreases s.len(),
{
    if s.len() == 0 {
        None
    } else if addr_of(s.last()) == a {
        Some(s.last())
    } else {
        lookup_addr(s.drop_last(), a)
    }
}

/// Follow `next_addr` pointers through the layout `s` from `cur`, with
/// `count` leaves already walked: stop at the MAX pointer, fail on a pointer
/// to no leaf or on a walk longer than the layout.
pub open spec fn walk_from(s: Seq<HeapLeaf>, cur: HeapLeaf, count: nat) -> Option<Seq<HeapLeaf>>
    decreases s.len() - count,
{
    if count + 1 > s.len() {
        None
    } else if cur.next_addr.value() == SENTINEL_MAX_VALUE {
        Some(seq![cur])
    } else {
        match lookup_addr(s, cur.next_addr.value() as int) {
            None => None,
            Some(nx) => match walk_from(s, nx, count + 1) {
                None => None,
                Some(t) => Some(seq![cur] + t),
            },
        }
    }
}

/// The linked chain of a physical layout, walked from the MIN address.
pub open spec fn linked_walk(s: Seq<HeapLeaf>) -> Option<Seq<HeapLeaf>> {
    match lookup_addr(s, 0) {
        None => None,
        Some(h) => walk_from(s, h, 0),
    }
}

/// The walk already taken (`out`) followed by the walk from `cur`.
pub open spec fn walk_continues(s: Seq<HeapLeaf>, cur: HeapLeaf, out: Seq<HeapLeaf>) -> Option<Seq<HeapLeaf>> {
    match walk_from(s, cur, out.len()) {
        None => None,
        Some(t) => Some(out + t),
    }
}

/// The last leaf of a layout at address `a`.
fn lookup_last(s: &Vec<HeapLeaf>, a: u32) -> (r: Option<HeapLeaf>)
    ensures
        r == lookup_addr(s@, a as int),
{
    let mut i = s.len();
    assert(s@.take(i as int) =~= s@);
    while i > 0
        invariant
            i <= s@.len(),
            lookup_addr(s@, a as int) == lookup_addr(s@.take(i as int), a as int),
        decreases i,
    {
        assert(s@.take(i as int).last() == s@[i - 1]);
        assert(s@.take(i as int).drop_last() =~= s@.take(i - 1));
        if s[i - 1].addr.as_u32() == a {
            return Some(s[i - 1]);
        }
        i = i - 1;
    }
    None
}

impl AafiInsertWitness8 {
    /// Walk the post-insert layout's linked chain from the MIN sentinel,
    /// following `next_addr` pointers (each resolved to the last leaf at that
    /// address); `None` on a broken pointer or a walk longer than the layout.
    pub fn linked_chain_sorted(&self) -> (r: Option<Vec<HeapLeaf>>)
        ensures
            r is Some <==> linked_walk(self.append_order_after@) is Some,
            r matches Some(v) ==> linked_walk(self.append_order_after@) == Some(v@),
    {
        let s = &self.append_order_after;
        let n = s.len();
        let mut out: Vec<HeapLeaf> = Vec::new();
        let mut cur = match lookup_last(s, 0) {
            Some(h) => h,
            None => {
                return None;
            },
        };
        assert(out@ + seq![] =~= out@);
        loop
            invariant_except_break
                linked_walk(s@) == walk_continues(s@, cur, out@),
            invariant
                n == s@.len(),
                s@ == self.append_order_after@,
                out@.len() <= n,
            ensures
                linked_walk(s@) == Some(out@),
            decreases n - out@.len(),
        {
            let ghost prev = out@;
            let ghost before = cur;
            out.push(cur);
            if out.len() > n {
                assert(walk_from(s@, before, prev.len()) is None);
                assert(walk_continues(s@, before, prev) is None);
                return None;
            }
            let next = cur.next_addr.as_u32();
            if next == SENTINEL_MAX_VALUE {
                assert(walk_from(s@, before, prev.len()) == Some(seq![before]));
                assert(prev + seq![before] =~= out@);
                break;
            }
            cur = match lookup_last(s, next) {
                Some(x) => x,
                None => {
                    assert(walk_from(s@, before, prev.len()) is None);
                    assert(walk_continues(s@, before, prev) is None);
                    return None;
                },
            };
            proof {
                match walk_from(s@, cur, out@.len()) {
                    Some(t) => {
                        assert(prev + (seq![before] + t) =~= out@ + t);
                    },
                    None => {},
                }
            }
        }
        Some(out)
    }


    /// The appended leaf's eight-felt membership path in the physical
    /// layout's fold, at `depth`.
    pub fn new_leaf_membership(&self, depth: usize) -> (r: (Vec<[BabyBear; 8]>, Vec<u8>))
        ensures
            r.0@ == heap_siblings::<[BabyBear; 8]>(self.append_order_after@, self.free_index as int, depth as nat),
            r.1@ == path_directions(self.free_index as int, depth as nat),
            (self.free_index < self.append_order_after@.len() && self.free_index < pow2(depth as nat)
                && self.append_order_after@[self.free_index as int] == self.new_leaf) ==> recompose_path(
                <[BabyBear; 8]>::spec_leaf(self.new_leaf),
                r.0@,
                r.1@,
                node_fn::<[BabyBear; 8]>(),
            ) == heap_root_of::<[BabyBear; 8]>(self.append_order_after@, depth as nat),
    {
        let r = fold_append_order_membership_8(&self.append_order_after, self.free_index, depth);
        proof {
            if self.free_index < self.append_order_after@.len() && self.free_index < pow2(depth as nat) {
                lemma_membership_recomposes(
                    leaf_digests::<[BabyBear; 8]>(self.append_order_after@),
                    <[BabyBear; 8]>::spec_pad(),
                    node_fn::<[BabyBear; 8]>(),
                    self.free_index as int,
                    depth as nat,
                );
            }
        }
        r
    }
}

/// **The faithful eight-felt heap root** of a leaf list at
/// [`HEAP_TREE_DEPTH`].
pub fn compute_canonical_heap_root_8(leaves: Vec<HeapLeaf>) -> (r: Faithful8)
    requires
        chain_representable(leaves@),
        heap_chain(leaves@).len() <= pow2(HEAP_TREE_DEPTH as nat),
        pad_free::<[BabyBear; 8]>(heap_chain(leaves@)),
    ensures
        r.spec_limbs() == heap_root_of::<[BabyBear; 8]>(heap_chain(leaves@), HEAP_TREE_DEPTH as nat),
{
    let chain = build_chain(leaves, "compute_canonical_heap_root_8").unwrap();
    let (levels, empties) = build_levels::<[BabyBear; 8]>(&chain, HEAP_TREE_DEPTH);
    Faithful8::from_root8(node_or_empty(&levels, &empties, HEAP_TREE_DEPTH, 0, Ghost(chain@)))
}

/// The faithful eight-felt heap root of raw `((coll, key), value)` entries.
pub fn compute_canonical_heap_root_8_entries(entries: &[((BabyBear, BabyBear), BabyBear)]) -> (r: Faithful8)
    requires
        chain_representable(entry_leaves(entries@)),
        heap_chain(entry_leaves(entries@)).len() <= pow2(HEAP_TREE_DEPTH as nat),
        pad_free::<[BabyBear; 8]>(heap_chain(entry_leaves(entries@))),
    ensures
        r.spec_limbs() == heap_root_of::<[BabyBear; 8]>(heap_chain(entry_leaves(entries@)), HEAP_TREE_DEPTH as nat),
{
    compute_canonical_heap_root_8(leaves_of_entries(entries))
}

/// The faithful eight-felt root of the empty heap (only the MIN sentinel).
pub fn empty_heap_root_8() -> (r: Faithful8)
    requires
        pad_free::<[BabyBear; 8]>(heap_chain(Seq::<HeapLeaf>::empty())),
    ensures
        r.spec_limbs() == heap_root_of::<[BabyBear; 8]>(heap_chain(Seq::<HeapLeaf>::empty()), HEAP_TREE_DEPTH as nat),
{
    proof {
        lemma_empty_chain();
    }
    let v: Vec<HeapLeaf> = Vec::new();
    compute_canonical_heap_root_8(v)
}

/// The eight-felt canonical heap tree of a leaf list at [`HEAP_TREE_DEPTH`].
pub fn canonical_heap_tree_8(leaves: Vec<HeapLeaf>) -> (t: CanonicalHeapTree8)
    requires
        chain_representable(leaves@),
        heap_chain(leaves@).len() <= pow2(HEAP_TREE_DEPTH as nat),
        pad_free::<[BabyBear; 8]>(heap_chain(leaves@)),
    ensures
        t.wf(),
        t.chain() == heap_chain(leaves@),
        t.spec_depth() == HEAP_TREE_DEPTH,
{
    CanonicalHeapTree8::new(leaves, HEAP_TREE_DEPTH)
}


/// **A heap node hashes its children in order**: the one-felt node of
/// `(l, r)` is the hash of `[l, r]`, with `l` absorbed in lane 0 and `r` in
/// lane 1, so swapping two distinct children hashes a different state; the
/// eight-felt node absorbs the sixteen lanes `l ‖ r`.
pub proof fn lemma_heap_node_order(l: BabyBear, r: BabyBear, l8: [BabyBear; 8], r8: [BabyBear; 8])
    ensures
        spec_heap_node(l, r) == spec_hash(seq![l, r]),
        <BabyBear as HeapDigest>::spec_node(l, r) == spec_hash(seq![l, r]),
        crate::poseidon2::absorb_state(seq![l, r])[0] == l.value(),
        crate::poseidon2::absorb_state(seq![l, r])[1] == r.value(),
        l != r ==> crate::poseidon2::absorb_state(seq![l, r]) != crate::poseidon2::absorb_state(seq![r, l]),
        (<[BabyBear; 8] as HeapDigest>::spec_node(l8, r8))@ == spec_absorb(l8@ + r8@),
{
    lemma_digest8_of_lanes(spec_absorb(l8@ + r8@));
    if l != r {
        BabyBear::lemma_value_injective(l, r);
        assert(crate::poseidon2::absorb_state(seq![r, l])[0] == r.value());
    }
}

/// The array chosen for eight lanes has those lanes.
proof fn lemma_digest8_of_lanes(s: Seq<BabyBear>)
    requires
        s.len() == 8,
    ensures
        digest8_of(s)@ == s,
{
    let a: [BabyBear; 8] = [s[0], s[1], s[2], s[3], s[4], s[5], s[6], s[7]];
    assert(a@ =~= s);
}

} // verus!
