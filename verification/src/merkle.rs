//! The sparse binary Merkle fold, generically over the digest type.
//!
//! A tree of depth `d` commits a dense vector of `2^d` leaf digests: the
//! stored prefix `leaves`, followed by padding. The fold below never
//! materialises the padding: level `k + 1` is computed from the non-empty
//! prefix of level `k` only, and any node beyond a level's prefix is the
//! root of an all-padding subtree of that height ([`empty_root`]).
use vstd::prelude::*;
use vstd::arithmetic::power2::pow2;

verus! {

/// The next level of the sparse fold: parent `i` hashes children `2i` and
/// `2i + 1`, reading `pad` for a right child beyond the prefix.
pub open spec fn fold_level<D>(prev: Seq<D>, pad: D, node: spec_fn(D, D) -> D) -> Seq<D> {
    Seq::new(
        ((prev.len() + 1) / 2) as nat,
        |i: int|
            node(
                prev[2 * i],
                if 2 * i + 1 < prev.len() {
                    prev[2 * i + 1]
                } else {
                    pad
                },
            ),
    )
}

/// The root of an all-padding subtree of height `level`.
pub open spec fn empty_root<D>(zero: D, node: spec_fn(D, D) -> D, level: nat) -> D
    decreases level,
{
    if level == 0 {
        zero
    } else {
        let e = empty_root(zero, node, (level - 1) as nat);
        node(e, e)
    }
}

/// The non-empty prefix of level `k` of the tree over `leaves`.
pub open spec fn level_at<D>(leaves: Seq<D>, zero: D, node: spec_fn(D, D) -> D, k: nat) -> Seq<D>
    decreases k,
{
    if k == 0 {
        leaves
    } else {
        fold_level(
            level_at(leaves, zero, node, (k - 1) as nat),
            empty_root(zero, node, (k - 1) as nat),
            node,
        )
    }
}

/// The node at position `idx` of level `k` of the dense tree.
pub open spec fn node_at<D>(
    leaves: Seq<D>,
    zero: D,
    node: spec_fn(D, D) -> D,
    k: nat,
    idx: int,
) -> D {
    let lvl = level_at(leaves, zero, node, k);
    if 0 <= idx < lvl.len() {
        lvl[idx]
    } else {
        empty_root(zero, node, k)
    }
}

/// The Merkle root of the depth-`depth` tree over `leaves`.
pub open spec fn tree_root<D>(leaves: Seq<D>, zero: D, node: spec_fn(D, D) -> D, depth: nat) -> D {
    node_at(leaves, zero, node, depth, 0)
}

/// The index at level `k` of the ancestor of leaf `pos`.
pub open spec fn path_index(pos: int, k: nat) -> int
    decreases k,
{
    if k == 0 {
        pos
    } else {
        path_index(pos, (k - 1) as nat) / 2
    }
}

/// The sibling index of `idx` (`idx ^ 1`).
pub open spec fn sibling_index(idx: int) -> int {
    if idx % 2 == 0 {
        idx + 1
    } else {
        idx - 1
    }
}

/// The membership path of leaf `pos`: the sibling at every level, bottom-up.
pub open spec fn path_siblings<D>(
    leaves: Seq<D>,
    zero: D,
    node: spec_fn(D, D) -> D,
    pos: int,
    depth: nat,
) -> Seq<D> {
    Seq::new(depth, |k: int| node_at(leaves, zero, node, k as nat, sibling_index(path_index(pos, k as nat))))
}

/// The direction bits of leaf `pos`: `1` where the path node is a right child.
pub open spec fn path_directions(pos: int, depth: nat) -> Seq<u8> {
    Seq::new(depth, |k: int| (path_index(pos, k as nat) % 2) as u8)
}

/// Fold a digest up the first `k` steps of a `(sibling, direction)` path:
/// direction `0` puts the running node on the left, anything else on the right.
pub open spec fn recompose<D>(
    leaf: D,
    siblings: Seq<D>,
    directions: Seq<u8>,
    node: spec_fn(D, D) -> D,
    k: nat,
) -> D
    decreases k,
{
    if k == 0 {
        leaf
    } else {
        let cur = recompose(leaf, siblings, directions, node, (k - 1) as nat);
        if directions[k - 1] == 0 {
            node(cur, siblings[k - 1])
        } else {
            node(siblings[k - 1], cur)
        }
    }
}

/// Folding up a whole path.
pub open spec fn recompose_path<D>(
    leaf: D,
    siblings: Seq<D>,
    directions: Seq<u8>,
    node: spec_fn(D, D) -> D,
) -> D {
    recompose(leaf, siblings, directions, node, siblings.len())
}

/// Level `k + 1` has `ceil(len / 2)` nodes.
pub proof fn lemma_level_len<D>(leaves: Seq<D>, zero: D, node: spec_fn(D, D) -> D, k: nat)
    ensures
        level_at(leaves, zero, node, k + 1).len() == (level_at(leaves, zero, node, k).len() + 1) / 2,
{
}

/// A non-empty prefix stays non-empty all the way up.
pub proof fn lemma_level_nonempty<D>(leaves: Seq<D>, zero: D, node: spec_fn(D, D) -> D, k: nat)
    requires
        leaves.len() >= 1,
    ensures
        level_at(leaves, zero, node, k).len() >= 1,
    decreases k,
{
    if k > 0 {
        lemma_level_nonempty(leaves, zero, node, (k - 1) as nat);
    }
}

/// The ancestor of a stored leaf is stored: `pos < n` implies
/// `path_index(pos, k) < len(level k)`.
pub proof fn lemma_path_index_in_prefix<D>(
    leaves: Seq<D>,
    zero: D,
    node: spec_fn(D, D) -> D,
    pos: int,
    k: nat,
)
    requires
        0 <= pos < leaves.len(),
    ensures
        0 <= path_index(pos, k) < level_at(leaves, zero, node, k).len(),
    decreases k,
{
    if k > 0 {
        lemma_path_index_in_prefix(leaves, zero, node, pos, (k - 1) as nat);
    }
}

/// `path_index(pos, k) == pos / 2^k`.
pub proof fn lemma_path_index_div(pos: int, k: nat)
    requires
        pos >= 0,
    ensures
        path_index(pos, k) == pos / (pow2(k) as int),
        path_index(pos, k) >= 0,
    decreases k,
{
    vstd::arithmetic::power2::lemma_pow2_pos(k);
    if k == 0 {
        assert(pow2(0) == 1) by {
            vstd::arithmetic::power2::lemma2_to64();
        }
    } else {
        let km = (k - 1) as nat;
        lemma_path_index_div(pos, km);
        vstd::arithmetic::power2::lemma_pow2_unfold(k);
        vstd::arithmetic::power2::lemma_pow2_pos(km);
        let c = pow2(km) as int;
        vstd::arithmetic::div_mod::lemma_div_denominator(pos, c, 2);
        assert(c * 2 == pow2(k) as int);
        vstd::arithmetic::div_mod::lemma_div_pos_is_pos(pos, pow2(k) as int);
    }
}

/// A position inside the dense capacity has the root as its top ancestor.
pub proof fn lemma_path_index_top(pos: int, depth: nat)
    requires
        0 <= pos < pow2(depth),
    ensures
        path_index(pos, depth) == 0,
{
    lemma_path_index_div(pos, depth);
    vstd::arithmetic::div_mod::lemma_basic_div(pos, pow2(depth) as int);
}

/// Folding the membership path of a stored leaf yields its ancestor at
/// every level.
pub proof fn lemma_recompose_path_prefix<D>(
    leaves: Seq<D>,
    zero: D,
    node: spec_fn(D, D) -> D,
    pos: int,
    depth: nat,
    k: nat,
)
    requires
        0 <= pos < leaves.len(),
        k <= depth,
    ensures
        recompose(
            leaves[pos],
            path_siblings(leaves, zero, node, pos, depth),
            path_directions(pos, depth),
            node,
            k,
        ) == level_at(leaves, zero, node, k)[path_index(pos, k)],
    decreases k,
{
    lemma_path_index_in_prefix(leaves, zero, node, pos, k);
    if k > 0 {
        let km = (k - 1) as nat;
        lemma_recompose_path_prefix(leaves, zero, node, pos, depth, km);
        lemma_path_index_in_prefix(leaves, zero, node, pos, km);
        lemma_path_index_div(pos, km);
        let idx = path_index(pos, km);
        let lvl = level_at(leaves, zero, node, km);
        let p = idx / 2;
        assert(path_index(pos, k) == p);
        assert(path_directions(pos, depth)[km as int] == (idx % 2) as u8);
        if idx % 2 == 0 {
            assert(idx == 2 * p);
        } else {
            assert(idx == 2 * p + 1);
        }
    }
}

/// **Membership soundness of the fold**: the path of a stored leaf inside
/// the dense capacity recomposes to the root.
pub proof fn lemma_membership_recomposes<D>(
    leaves: Seq<D>,
    zero: D,
    node: spec_fn(D, D) -> D,
    pos: int,
    depth: nat,
)
    requires
        0 <= pos < leaves.len(),
        pos < pow2(depth),
    ensures
        recompose_path(
            leaves[pos],
            path_siblings(leaves, zero, node, pos, depth),
            path_directions(pos, depth),
            node,
        ) == tree_root(leaves, zero, node, depth),
{
    lemma_recompose_path_prefix(leaves, zero, node, pos, depth, depth);
    lemma_path_index_top(pos, depth);
    lemma_path_index_in_prefix(leaves, zero, node, pos, depth);
}

/// Replacing one stored node changes exactly its parent, which is recomputed
/// from the replaced pair.
pub proof fn lemma_fold_level_update<D>(prev: Seq<D>, pad: D, node: spec_fn(D, D) -> D, i: int, x: D)
    requires
        0 <= i < prev.len(),
    ensures
        fold_level(prev.update(i, x), pad, node) == fold_level(prev, pad, node).update(
            i / 2,
            fold_level(prev.update(i, x), pad, node)[i / 2],
        ),
{
    let a = fold_level(prev.update(i, x), pad, node);
    let b = fold_level(prev, pad, node).update(i / 2, a[i / 2]);
    assert forall|j: int| 0 <= j < a.len() implies a[j] == b[j] by {
        if j != i / 2 {
            assert(2 * j != i && 2 * j + 1 != i);
        }
    }
    assert(a =~= b);
}

/// Replacing leaf `pos` changes, at every level, only the ancestor of `pos`.
pub proof fn lemma_level_update<D>(
    leaves: Seq<D>,
    zero: D,
    node: spec_fn(D, D) -> D,
    pos: int,
    x: D,
    k: nat,
)
    requires
        0 <= pos < leaves.len(),
    ensures
        level_at(leaves.update(pos, x), zero, node, k) == level_at(leaves, zero, node, k).update(
            path_index(pos, k),
            level_at(leaves.update(pos, x), zero, node, k)[path_index(pos, k)],
        ),
    decreases k,
{
    lemma_path_index_in_prefix(leaves, zero, node, pos, k);
    if k == 0 {
        assert(leaves.update(pos, x) =~= leaves.update(pos, leaves.update(pos, x)[pos]));
    } else {
        let km = (k - 1) as nat;
        lemma_level_update(leaves, zero, node, pos, x, km);
        lemma_path_index_in_prefix(leaves, zero, node, pos, km);
        lemma_path_index_div(pos, km);
        let old_lvl = level_at(leaves, zero, node, km);
        let new_lvl = level_at(leaves.update(pos, x), zero, node, km);
        let idx = path_index(pos, km);
        lemma_fold_level_update(old_lvl, empty_root(zero, node, km), node, idx, new_lvl[idx]);
    }
}

/// Replacing leaf `pos` leaves its membership siblings unchanged: no
/// sibling on the path is an ancestor of `pos`.
pub proof fn lemma_siblings_after_update<D>(
    leaves: Seq<D>,
    zero: D,
    node: spec_fn(D, D) -> D,
    pos: int,
    x: D,
    depth: nat,
)
    requires
        0 <= pos < leaves.len(),
    ensures
        path_siblings(leaves.update(pos, x), zero, node, pos, depth) == path_siblings(
            leaves,
            zero,
            node,
            pos,
            depth,
        ),
{
    let a = path_siblings(leaves.update(pos, x), zero, node, pos, depth);
    let b = path_siblings(leaves, zero, node, pos, depth);
    assert forall|k: int| 0 <= k < depth implies a[k] == b[k] by {
        lemma_level_update(leaves, zero, node, pos, x, k as nat);
        lemma_path_index_div(pos, k as nat);
        lemma_path_index_in_prefix(leaves, zero, node, pos, k as nat);
        let pi = path_index(pos, k as nat);
        let si = sibling_index(pi);
        assert(si != pi);
        let lo = level_at(leaves, zero, node, k as nat);
        let ln = level_at(leaves.update(pos, x), zero, node, k as nat);
        assert(ln.len() == lo.len());
        if 0 <= si < lo.len() {
            assert(ln[si] == lo[si]);
        }
    }
    assert(a =~= b);
}

/// The tree over no leaves stores nothing at any level.
pub proof fn lemma_level_empty<D>(zero: D, node: spec_fn(D, D) -> D, k: nat)
    ensures
        level_at(Seq::<D>::empty(), zero, node, k).len() == 0,
    decreases k,
{
    if k > 0 {
        lemma_level_empty(zero, node, (k - 1) as nat);
    }
}

/// The dense fold: level `k + 1` hashes the pairs `(2i, 2i + 1)` of level
/// `k`, every position materialised.
pub open spec fn dense_level<D>(dense: Seq<D>, node: spec_fn(D, D) -> D, k: nat) -> Seq<D>
    decreases k,
{
    if k == 0 {
        dense
    } else {
        let prev = dense_level(dense, node, (k - 1) as nat);
        Seq::new(prev.len() / 2, |i: int| node(prev[2 * i], prev[2 * i + 1]))
    }
}

/// The leaves padded with `zero` to `cap` positions.
pub open spec fn padded<D>(leaves: Seq<D>, zero: D, cap: nat) -> Seq<D> {
    Seq::new(cap, |i: int| if i < leaves.len() { leaves[i] } else { zero })
}

/// **The sparse fold is the dense fold**: over the leaves padded to at
/// least their own length, every dense node equals the sparse node at the
/// same position.
pub proof fn lemma_sparse_matches_dense<D>(leaves: Seq<D>, zero: D, node: spec_fn(D, D) -> D, cap: nat, k: nat)
    ensures
        forall|i: int|
            0 <= i < dense_level(padded(leaves, zero, cap), node, k).len() ==> #[trigger] dense_level(
                padded(leaves, zero, cap),
                node,
                k,
            )[i] == node_at(leaves, zero, node, k, i),
    decreases k,
{
    let ds = padded(leaves, zero, cap);
    if k > 0 {
        let km = (k - 1) as nat;
        lemma_sparse_matches_dense(leaves, zero, node, cap, km);
        let prev = dense_level(ds, node, km);
        let lvl = level_at(leaves, zero, node, km);
        assert forall|i: int| 0 <= i < dense_level(ds, node, k).len() implies #[trigger] dense_level(ds, node, k)[i] == node_at(leaves, zero, node, k, i) by {
            assert(2 * i + 1 < prev.len());
            assert(prev[2 * i] == node_at(leaves, zero, node, km, 2 * i));
            assert(prev[2 * i + 1] == node_at(leaves, zero, node, km, 2 * i + 1));
        }
    }
}

/// The dense level `k` over `2^depth` positions has `2^(depth - k)` nodes.
pub proof fn lemma_dense_len<D>(dense: Seq<D>, node: spec_fn(D, D) -> D, depth: nat, k: nat)
    requires
        dense.len() == pow2(depth),
        k <= depth,
    ensures
        dense_level(dense, node, k).len() == pow2((depth - k) as nat),
    decreases k,
{
    if k > 0 {
        lemma_dense_len(dense, node, depth, (k - 1) as nat);
        vstd::arithmetic::power2::lemma_pow2_unfold((depth - k + 1) as nat);
    }
}

/// **The dense root is the sparse root**: the depth-`depth` dense fold of
/// the leaves padded to `2^depth` tops out at [`tree_root`].
pub proof fn lemma_dense_root<D>(leaves: Seq<D>, zero: D, node: spec_fn(D, D) -> D, depth: nat)
    ensures
        dense_level(padded(leaves, zero, pow2(depth)), node, depth).len() == 1,
        dense_level(padded(leaves, zero, pow2(depth)), node, depth)[0] == tree_root(leaves, zero, node, depth),
{
    lemma_dense_len(padded(leaves, zero, pow2(depth)), node, depth, depth);
    vstd::arithmetic::power2::lemma2_to64();
    lemma_sparse_matches_dense(leaves, zero, node, pow2(depth), depth);
}

/// **Trailing padding is invisible**: a leaf list and the same list
/// extended by the padding digest (within capacity) have the same root.
/// This is why a stored digest equal to the padding digest is refused.
pub proof fn lemma_padding_invisible<D>(leaves: Seq<D>, zero: D, node: spec_fn(D, D) -> D, depth: nat)
    requires
        leaves.len() < pow2(depth),
    ensures
        tree_root(leaves.push(zero), zero, node, depth) == tree_root(leaves, zero, node, depth),
{
    let cap = pow2(depth);
    assert(padded(leaves.push(zero), zero, cap) =~= padded(leaves, zero, cap));
    lemma_dense_root(leaves, zero, node, depth);
    lemma_dense_root(leaves.push(zero), zero, node, depth);
}

} // verus!
