//! Depth-general 4-ary, eight-felt (`node8`) Poseidon2 Merkle membership:
//! the node fold, the root a leaf and path imply, and the one-level-per-row
//! witness trace.
//!
//! Every node is a full eight-felt digest. Four children are 32 felts, twice
//! the absorb rate, so a node is a balanced pair of arity-16 absorbs:
//! `node8_4ary(c0, c1, c2, c3) = A16(A16(c0 ‖ c1) ‖ A16(c2 ‖ c3))`.
//!
//! Row layout (width 90): `cur8` (0..8), the three siblings (8..32), the two
//! position bits (32, 33), the four ordered children (34..66), the stage-one
//! digests `h01` (66..74) and `h23` (74..82), and the parent `par8` (82..90).
//! The public inputs are `[leaf0..leaf7, root0..root7]`.
use vstd::prelude::*;
use crate::field::BabyBear;
use crate::poseidon2::spec_absorb;
use crate::heap_tree::heap_node8;
use crate::ivc::{is_power_of_two, usize_is_power_of_two};
use crate::text::{decimal, decimal_spec};

verus! {

/// The membership digest width.
pub const DIGEST_W: usize = 8;

/// An eight-felt membership node.
pub type Digest8 = [BabyBear; 8];

/// Running eight-felt node (row 0 = the leaf).
pub const CUR: usize = 0;

/// First co-path sibling.
pub const SIB0: usize = 8;

/// Second co-path sibling.
pub const SIB1: usize = 16;

/// Third co-path sibling.
pub const SIB2: usize = 24;

/// Low position bit.
pub const B0: usize = 32;

/// High position bit (`position = b0 + 2·b1`).
pub const B1: usize = 33;

/// Ordered child 0.
pub const C0: usize = 34;

/// Ordered child 1.
pub const C1: usize = 42;

/// Ordered child 2.
pub const C2: usize = 50;

/// Ordered child 3.
pub const C3: usize = 58;

/// Stage-one left digest `A16(c0 ‖ c1)`.
pub const H01: usize = 66;

/// Stage-one right digest `A16(c2 ‖ c3)`.
pub const H23: usize = 74;

/// The eight-felt parent `A16(h01 ‖ h23)`.
pub const PAR: usize = 82;

/// Main-trace width.
pub const MEMBERSHIP_4ARY_WIDTH: usize = 90;

/// PI slots `0..8`: the leaf.
pub const PI_LEAF: usize = 0;

/// PI slots `8..16`: the root.
pub const PI_ROOT: usize = 8;

/// Public-input count.
pub const MEMBERSHIP_4ARY_PI_COUNT: usize = 16;

/// The wire dispatch prefix of the wide 4-ary membership family.
pub const MEMBERSHIP_4ARY_NAME_PREFIX: &'static str = "merkle-membership::poseidon2-4ary-wide-general-depth";

/// **The wire dispatch identity** of depth `depth`: the prefix followed by
/// the depth in decimal.
pub fn membership_4ary_dispatch_name(depth: usize) -> (r: String)
    ensures
        r@ == MEMBERSHIP_4ARY_NAME_PREFIX@ + decimal_spec(depth as nat),
{
    let mut s = String::from_str(MEMBERSHIP_4ARY_NAME_PREFIX);
    let d = decimal(depth as u64);
    s.append(d.as_str());
    s
}

/// `A16(l ‖ r)`: all eight lanes of the arity-16 absorb of two groups.
pub open spec fn spec_absorb16(l: Seq<BabyBear>, r: Seq<BabyBear>) -> Seq<BabyBear> {
    spec_absorb(l + r)
}

/// The 4-ary node fold of four eight-felt children.
pub open spec fn spec_node8_4ary(c: Seq<Seq<BabyBear>>) -> Seq<BabyBear> {
    spec_absorb16(spec_absorb16(c[0], c[1]), spec_absorb16(c[2], c[3]))
}

/// The lanes of each digest of a list.
pub open spec fn views8(s: Seq<Digest8>) -> Seq<Seq<BabyBear>> {
    Seq::new(s.len(), |i: int| s[i]@)
}

/// The lanes of each sibling triple of a path.
pub open spec fn sib_views(s: Seq<[Digest8; 3]>) -> Seq<Seq<Seq<BabyBear>>> {
    Seq::new(s.len(), |i: int| views8(s[i]@))
}

/// The four ordered children at a level: `cur` at `pos`, the siblings in
/// order around it.
pub open spec fn arranged(cur: Seq<BabyBear>, sibs: Seq<Seq<BabyBear>>, pos: int) -> Seq<Seq<BabyBear>> {
    Seq::new(
        4,
        |j: int|
            if j < pos {
                sibs[j]
            } else if j == pos {
                cur
            } else {
                sibs[j - 1]
            },
    )
}

/// **The running node sits at its position, the siblings fill the other
/// slots in order**: the arranged children hold `cur` at `pos`, and taking
/// it out leaves exactly the three siblings.
pub proof fn lemma_arranged_places_node(cur: Seq<BabyBear>, sibs: Seq<Seq<BabyBear>>, pos: int)
    requires
        0 <= pos < 4,
        sibs.len() == 3,
    ensures
        arranged(cur, sibs, pos).len() == 4,
        arranged(cur, sibs, pos)[pos] == cur,
        arranged(cur, sibs, pos).remove(pos) == sibs,
{
    assert(arranged(cur, sibs, pos).remove(pos) =~= sibs);
}

/// The running node after the first `k` levels of the path.
pub open spec fn spec_root_4ary(
    leaf: Seq<BabyBear>,
    sibs: Seq<Seq<Seq<BabyBear>>>,
    positions: Seq<u8>,
    k: nat,
) -> Seq<BabyBear>
    decreases k,
{
    if k == 0 {
        leaf
    } else {
        let cur = spec_root_4ary(leaf, sibs, positions, (k - 1) as nat);
        spec_node8_4ary(arranged(cur, sibs[k - 1], positions[k - 1] as int))
    }
}

/// **The root unfolds from the front**: over a path of `k ≥ 1` levels,
/// the root is the root, over the remaining `k - 1` levels, of the first
/// level's node (the leaf at its position among the first siblings).
pub proof fn lemma_root_4ary_front(leaf: Seq<BabyBear>, sibs: Seq<Seq<Seq<BabyBear>>>, positions: Seq<u8>, k: nat)
    requires
        1 <= k,
        k <= sibs.len(),
        k <= positions.len(),
    ensures
        spec_root_4ary(leaf, sibs, positions, k) == spec_root_4ary(
            spec_node8_4ary(arranged(leaf, sibs[0], positions[0] as int)),
            sibs.drop_first(),
            positions.drop_first(),
            (k - 1) as nat,
        ),
    decreases k,
{
    reveal_with_fuel(spec_root_4ary, 2);
    if k > 1 {
        lemma_root_4ary_front(leaf, sibs, positions, (k - 1) as nat);
        assert(sibs.drop_first()[k - 2] == sibs[k - 1]);
        assert(positions.drop_first()[k - 2] == positions[k - 1]);
    }
}

/// The shorter of the path's two lengths.
pub open spec fn zip_len(siblings: Seq<[Digest8; 3]>, positions: Seq<u8>) -> nat {
    if siblings.len() <= positions.len() {
        siblings.len()
    } else {
        positions.len()
    }
}

/// **`A16`** — all eight lanes of the arity-16 absorb of `left ‖ right`.
pub fn absorb16(left: &Digest8, right: &Digest8) -> (r: Digest8)
    ensures
        r@ == spec_absorb16(left@, right@),
{
    heap_node8(*left, *right)
}

/// **The 4-ary node fold** `A16(A16(c0 ‖ c1) ‖ A16(c2 ‖ c3))`.
pub fn node8_4ary(children: &[Digest8; 4]) -> (r: Digest8)
    ensures
        r@ == spec_node8_4ary(views8(children@)),
{
    let h01 = absorb16(&children[0], &children[1]);
    let h23 = absorb16(&children[2], &children[3]);
    absorb16(&h01, &h23)
}

/// The four ordered children at a level: `children[position] = cur`.
fn arrange_children(cur: &Digest8, siblings: &[Digest8; 3], position: u8) -> (r: [Digest8; 4])
    requires
        position < 4,
    ensures
        views8(r@) == arranged(cur@, views8(siblings@), position as int),
        r@[position as int] == *cur,
        forall|j: int| 0 <= j < 3 ==> #[trigger] siblings@[j] == r@[if j < position { j } else { j + 1 }],
{
    let r = if position == 0 {
        [*cur, siblings[0], siblings[1], siblings[2]]
    } else if position == 1 {
        [siblings[0], *cur, siblings[1], siblings[2]]
    } else if position == 2 {
        [siblings[0], siblings[1], *cur, siblings[2]]
    } else {
        [siblings[0], siblings[1], siblings[2], *cur]
    };
    assert(views8(r@) =~= arranged(cur@, views8(siblings@), position as int));
    r
}

/// **The root** an eight-felt leaf and a 4-ary authentication path imply,
/// over the levels both lists cover.
pub fn membership_root_4ary(leaf: Digest8, siblings: &[[Digest8; 3]], positions: &[u8]) -> (r: Digest8)
    requires
        forall|i: int| 0 <= i < zip_len(siblings@, positions@) ==> #[trigger] positions@[i] < 4,
    ensures
        r@ == spec_root_4ary(leaf@, sib_views(siblings@), positions@, zip_len(siblings@, positions@)),
{
    let n = if siblings.len() <= positions.len() {
        siblings.len()
    } else {
        positions.len()
    };
    let mut cur = leaf;
    let mut i: usize = 0;
    while i < n
        invariant
            n == zip_len(siblings@, positions@),
            n <= siblings@.len(),
            n <= positions@.len(),
            i <= n,
            forall|j: int| 0 <= j < n ==> #[trigger] positions@[j] < 4,
            cur@ == spec_root_4ary(leaf@, sib_views(siblings@), positions@, i as nat),
        decreases n - i,
    {
        let children = arrange_children(&cur, &siblings[i], positions[i]);
        cur = node8_4ary(&children);
        i = i + 1;
    }
    cur
}

/// The trace row of one level: the running node, the siblings, the two
/// position bits, the ordered children, both stage-one digests, the parent.
pub open spec fn row_4ary(cur: Seq<BabyBear>, sibs: Seq<Seq<BabyBear>>, pos: int) -> Seq<BabyBear> {
    let c = arranged(cur, sibs, pos);
    let h01 = spec_absorb16(c[0], c[1]);
    let h23 = spec_absorb16(c[2], c[3]);
    cur + sibs[0] + sibs[1] + sibs[2] + seq![BabyBear::from_spec((pos % 2) as u32), BabyBear::from_spec((pos / 2) as u32)]
        + c[0] + c[1] + c[2] + c[3] + h01 + h23 + spec_absorb16(h01, h23)
}

/// Append the eight lanes of a digest.
fn push8(row: &mut Vec<BabyBear>, d: &Digest8)
    ensures
        final(row)@ == old(row)@ + d@,
{
    let mut k: usize = 0;
    let ghost start = row@;
    while k < 8
        invariant
            k <= 8,
            row@ == start + d@.subrange(0, k as int),
        decreases 8 - k,
    {
        row.push(d[k]);
        assert(start + d@.subrange(0, k + 1) =~= (start + d@.subrange(0, k as int)).push(d@[k as int]));
        k = k + 1;
    }
    assert(d@.subrange(0, 8) =~= d@);
}

/// The refusal message of a length mismatch.
fn mismatch_message(depth: usize, positions: usize) -> (r: String)
    ensures
        r@ == "siblings/positions length mismatch ("@ + decimal_spec(depth as nat) + " vs "@ + decimal_spec(
            positions as nat,
        ) + ")"@,
{
    let mut m = String::from_str("siblings/positions length mismatch (");
    let a = decimal(depth as u64);
    m.append(a.as_str());
    m.append(" vs ");
    let b = decimal(positions as u64);
    m.append(b.as_str());
    m.append(")");
    m
}

/// **The membership witness**: one row per level and the public inputs
/// `[leaf, root]` (sixteen felts). Refused on a length mismatch, a depth
/// that is not a power of two at least 2, or a position outside `0..4`.
pub fn membership_witness_4ary(leaf: Digest8, siblings: &[[Digest8; 3]], positions: &[u8]) -> (r: Result<(Vec<Vec<BabyBear>>, Vec<BabyBear>), String>)
    ensures
        r is Ok <==> (siblings@.len() == positions@.len() && siblings@.len() >= 2 && is_power_of_two(siblings@.len())
            && forall|i: int| 0 <= i < positions@.len() ==> #[trigger] positions@[i] < 4),
        r matches Ok(w) ==> w.0@.len() == siblings@.len()
            && (forall|i: int| 0 <= i < siblings@.len() ==> (#[trigger] w.0@[i])@ == row_4ary(
                spec_root_4ary(leaf@, sib_views(siblings@), positions@, i as nat),
                sib_views(siblings@)[i],
                positions@[i] as int,
            ))
            && w.1@ == leaf@ + spec_root_4ary(leaf@, sib_views(siblings@), positions@, siblings@.len()),
{
    let depth = siblings.len();
    if depth != positions.len() {
        return Err(mismatch_message(depth, positions.len()));
    }
    if depth < 2 || !usize_is_power_of_two(depth) {
        let mut m = String::from_str("membership depth ");
        let d = decimal(depth as u64);
        m.append(d.as_str());
        m.append(" must be a power of two ≥ 2 (the trace-height requirement)");
        return Err(m);
    }
    let mut trace: Vec<Vec<BabyBear>> = Vec::new();
    let mut cur = leaf;
    let mut i: usize = 0;
    while i < depth
        invariant
            depth == siblings@.len(),
            depth == positions@.len(),
            i <= depth,
            trace@.len() == i,
            forall|j: int| 0 <= j < i ==> #[trigger] positions@[j] < 4,
            cur@ == spec_root_4ary(leaf@, sib_views(siblings@), positions@, i as nat),
            forall|j: int| 0 <= j < i ==> (#[trigger] trace@[j])@ == row_4ary(
                spec_root_4ary(leaf@, sib_views(siblings@), positions@, j as nat),
                sib_views(siblings@)[j],
                positions@[j] as int,
            ),
        decreases depth - i,
    {
        let pos = positions[i];
        if pos >= 4 {
            let mut m = String::from_str("position ");
            let d = decimal(pos as u64);
            m.append(d.as_str());
            m.append(" must be < 4");
            return Err(m);
        }
        let sibs = &siblings[i];
        let children = arrange_children(&cur, sibs, pos);
        let h01 = absorb16(&children[0], &children[1]);
        let h23 = absorb16(&children[2], &children[3]);
        let par = absorb16(&h01, &h23);
        let mut row: Vec<BabyBear> = Vec::new();
        push8(&mut row, &cur);
        push8(&mut row, &sibs[0]);
        push8(&mut row, &sibs[1]);
        push8(&mut row, &sibs[2]);
        row.push(BabyBear::new((pos % 2) as u32));
        row.push(BabyBear::new((pos / 2) as u32));
        push8(&mut row, &children[0]);
        push8(&mut row, &children[1]);
        push8(&mut row, &children[2]);
        push8(&mut row, &children[3]);
        push8(&mut row, &h01);
        push8(&mut row, &h23);
        push8(&mut row, &par);
        proof {
            let c = arranged(cur@, views8(sibs@), pos as int);
            assert(views8(children@)[0] == c[0]);
            assert(views8(children@)[1] == c[1]);
            assert(views8(children@)[2] == c[2]);
            assert(views8(children@)[3] == c[3]);
            assert(sib_views(siblings@)[i as int] == views8(sibs@));
            assert(row@ =~= row_4ary(cur@, views8(sibs@), pos as int));
        }
        trace.push(row);
        cur = par;
        i = i + 1;
    }
    let mut pis: Vec<BabyBear> = Vec::new();
    push8(&mut pis, &leaf);
    push8(&mut pis, &cur);
    Ok((trace, pis))
}

/// The deterministic sibling lane `(level i, sibling s, lane k)` of the
/// honest test witness.
pub open spec fn test_lane(i: int, s: int, k: int) -> BabyBear {
    BabyBear::from_spec((i * 24 + s * 8 + k + 1) as u32)
}

/// A deterministic sibling triple of the honest test witness.
fn test_siblings(i: usize) -> (r: [Digest8; 3])
    requires
        i * 24 + 24 <= usize::MAX,
    ensures
        forall|s: int, k: int| 0 <= s < 3 && 0 <= k < 8 ==> #[trigger] r@[s]@[k] == test_lane(i as int, s, k),
{
    let z = BabyBear::zero();
    let mut r: [Digest8; 3] = [[z, z, z, z, z, z, z, z], [z, z, z, z, z, z, z, z], [z, z, z, z, z, z, z, z]];
    let mut s: usize = 0;
    while s < 3
        invariant
            s <= 3,
            i * 24 + 24 <= usize::MAX,
            forall|t: int, k: int| 0 <= t < s && 0 <= k < 8 ==> #[trigger] r@[t]@[k] == test_lane(i as int, t, k),
        decreases 3 - s,
    {
        let mut d: Digest8 = [z, z, z, z, z, z, z, z];
        let mut k: usize = 0;
        while k < 8
            invariant
                k <= 8,
                s < 3,
                i * 24 + 24 <= usize::MAX,
                forall|m: int| 0 <= m < k ==> #[trigger] d@[m] == test_lane(i as int, s as int, m),
            decreases 8 - k,
        {
            d[k] = BabyBear::new((i * 24 + s * 8 + k + 1) as u32);
            k = k + 1;
        }
        r[s] = d;
        s = s + 1;
    }
    r
}

/// **An honest test witness** of depth `depth`: deterministic siblings,
/// positions `i mod 4`, and the folded root.
pub fn create_test_witness(leaf: Digest8, depth: usize) -> (r: (Vec<[Digest8; 3]>, Vec<u8>, Digest8))
    requires
        depth * 24 <= usize::MAX,
    ensures
        r.0@.len() == depth,
        r.1@.len() == depth,
        forall|i: int| 0 <= i < depth ==> #[trigger] r.1@[i] == (i % 4) as u8,
        forall|i: int, s: int, k: int| 0 <= i < depth && 0 <= s < 3 && 0 <= k < 8 ==> #[trigger] r.0@[i]@[s]@[k]
            == test_lane(i, s, k),
        r.2@ == spec_root_4ary(leaf@, sib_views(r.0@), r.1@, depth as nat),
{
    let mut siblings: Vec<[Digest8; 3]> = Vec::new();
    let mut positions: Vec<u8> = Vec::new();
    let mut cur = leaf;
    let mut i: usize = 0;
    while i < depth
        invariant
            depth * 24 <= usize::MAX,
            i <= depth,
            siblings@.len() == i,
            positions@.len() == i,
            forall|j: int| 0 <= j < i ==> #[trigger] positions@[j] == (j % 4) as u8,
            forall|j: int, s: int, k: int| 0 <= j < i && 0 <= s < 3 && 0 <= k < 8 ==> #[trigger] siblings@[j]@[s]@[k]
                == test_lane(j, s, k),
            cur@ == spec_root_4ary(leaf@, sib_views(siblings@), positions@, i as nat),
        decreases depth - i,
    {
        let pos = (i % 4) as u8;
        let sibs = test_siblings(i);
        let children = arrange_children(&cur, &sibs, pos);
        let ghost old_s = siblings@;
        let ghost old_p = positions@;
        cur = node8_4ary(&children);
        siblings.push(sibs);
        positions.push(pos);
        proof {
            assert forall|k: nat| k <= i implies spec_root_4ary(leaf@, sib_views(siblings@), positions@, k)
                == spec_root_4ary(leaf@, sib_views(old_s), old_p, k) by {
                lemma_root_prefix(leaf@, sib_views(siblings@), positions@, sib_views(old_s), old_p, k);
            }
            assert(sib_views(siblings@)[i as int] == views8(sibs@));
        }
        i = i + 1;
    }
    (siblings, positions, cur)
}

/// The running node only reads the levels it has folded.
proof fn lemma_root_prefix(
    leaf: Seq<BabyBear>,
    s1: Seq<Seq<Seq<BabyBear>>>,
    p1: Seq<u8>,
    s2: Seq<Seq<Seq<BabyBear>>>,
    p2: Seq<u8>,
    k: nat,
)
    requires
        k <= s2.len(),
        k <= p2.len(),
        k <= s1.len(),
        k <= p1.len(),
        forall|j: int| 0 <= j < k ==> s1[j] == s2[j] && p1[j] == p2[j],
    ensures
        spec_root_4ary(leaf, s1, p1, k) == spec_root_4ary(leaf, s2, p2, k),
    decreases k,
{
    if k > 0 {
        lemma_root_prefix(leaf, s1, p1, s2, p2, (k - 1) as nat);
    }
}

/// Widen a 32-byte value's eight limbs into the membership leaf domain:
/// `A16(limbs ‖ 0⁸)`.
pub fn compress_member_felts(limbs8: &Digest8) -> (r: Digest8)
    ensures
        r@ == spec_absorb16(limbs8@, Seq::new(8, |i: int| BabyBear::spec_zero())),
{
    let z = BabyBear::zero();
    let zeros: Digest8 = [z, z, z, z, z, z, z, z];
    assert(zeros@ =~= Seq::new(8, |i: int| BabyBear::spec_zero()));
    absorb16(limbs8, &zeros)
}


/// **The 4-ary node folds its children pairwise, left to right**: it is the
/// arity-16 absorb of the absorb of children 0 and 1 followed by the absorb
/// of children 2 and 3.
pub proof fn lemma_node8_4ary_fold(c: Seq<Seq<BabyBear>>)
    requires
        c.len() == 4,
    ensures
        spec_node8_4ary(c) == spec_absorb(spec_absorb(c[0] + c[1]) + spec_absorb(c[2] + c[3])),
{
}

} // verus!
