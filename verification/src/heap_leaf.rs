//! The heap leaf — an indexed-Merkle-tree (IMT) node `(addr, value,
//! next_addr)` — and the canonical sorted, linked leaf chain every heap tree
//! commits.
//!
//! A leaf list is turned into the committed chain by: dropping caller copies
//! of the MIN sentinel, adding the one MIN sentinel `{0, 0, MAX}`, sorting
//! by address, refusing a repeated address, and relinking every `next_addr`
//! to the successor's address (the last one to `MAX`).
use vstd::prelude::*;
use crate::field::{BabyBear, BABYBEAR_P};
use crate::poseidon2::{absorb_state, chip_absorb_all_lanes, hash_many, spec_absorb, spec_hash};

verus! {

/// The representative of the MAX sentinel, `p - 1`.
pub const SENTINEL_MAX_VALUE: u32 = 2013265920u32;

/// The tree depth of the canonical heap tree.
pub const HEAP_TREE_DEPTH: usize = 16;

/// The number of felts in a heap-leaf digest preimage: `[addr, value, next_addr]`.
pub const HEAP_LEAF_ARITY: usize = 3;

/// The number of sentinel leaves the heap builders store (the MIN sentinel).
pub const HEAP_SENTINEL_LEAVES: usize = 1;

/// The number of felts in a faithful heap-tree digest.
pub const HEAP_DIGEST_W: usize = 8;

/// The MIN sentinel address `0`.
pub open spec fn spec_sentinel_min() -> BabyBear {
    BabyBear::from_spec(0)
}

/// The MAX sentinel address `p - 1`.
pub open spec fn spec_sentinel_max() -> BabyBear {
    BabyBear::from_spec(SENTINEL_MAX_VALUE)
}

/// The MIN sentinel address `0`: the low bracket of every gap.
pub fn sentinel_min() -> (r: BabyBear)
    ensures
        r == spec_sentinel_min(),
        r.value() == 0,
{
    BabyBear::new(0)
}

/// The MAX sentinel address `p - 1`: the terminal `next_addr` pointer.
pub fn sentinel_max() -> (r: BabyBear)
    ensures
        r == spec_sentinel_max(),
        r.value() == SENTINEL_MAX_VALUE,
{
    BabyBear::new(SENTINEL_MAX_VALUE)
}

/// One heap entry: the IMT leaf `(addr, value, next_addr)`.
#[derive(Clone, Copy, Debug, PartialEq, Eq, Structural)]
pub struct HeapLeaf {
    /// The sort key: the address of the entry.
    pub addr: BabyBear,
    /// The stored value.
    pub value: BabyBear,
    /// The next-larger present address (the linked-list pointer).
    pub next_addr: BabyBear,
}

/// The address of a leaf, as an integer.
pub open spec fn addr_of(l: HeapLeaf) -> int {
    l.addr.value() as int
}

/// The ordered digest preimage of a leaf.
pub open spec fn leaf_preimage(l: HeapLeaf) -> Seq<BabyBear> {
    seq![l.addr, l.value, l.next_addr]
}

/// The one-felt leaf digest.
pub open spec fn spec_leaf_digest(l: HeapLeaf) -> BabyBear {
    spec_hash(leaf_preimage(l))
}

/// The eight-felt leaf digest.
pub open spec fn spec_leaf_digest8(l: HeapLeaf) -> Seq<BabyBear> {
    spec_absorb(leaf_preimage(l))
}

/// **A leaf's digest binds its pointer**: the one- and eight-felt digests
/// of a leaf hash the three felts `[addr, value, next_addr]` in that order;
/// the absorbed state carries `next_addr` in lane 2, so two leaves that
/// differ only in their pointer hash different states.
pub proof fn lemma_leaf_digest_binds_pointer(l: HeapLeaf, m: HeapLeaf)
    ensures
        spec_leaf_digest(l) == spec_hash(seq![l.addr, l.value, l.next_addr]),
        spec_leaf_digest8(l) == spec_absorb(seq![l.addr, l.value, l.next_addr]),
        absorb_state(leaf_preimage(l))[2] == l.next_addr.value(),
        l.addr == m.addr && l.value == m.value && l.next_addr != m.next_addr ==> absorb_state(leaf_preimage(l))
            != absorb_state(leaf_preimage(m)),
{
    if l.next_addr != m.next_addr {
        BabyBear::lemma_value_injective(l.next_addr, m.next_addr);
        assert(absorb_state(leaf_preimage(m))[2] == m.next_addr.value());
    }
}

/// The MIN sentinel leaf `{MIN, 0, MAX}`.
pub open spec fn spec_min_sentinel_leaf() -> HeapLeaf {
    HeapLeaf { addr: spec_sentinel_min(), value: BabyBear::from_spec(0), next_addr: spec_sentinel_max() }
}

impl HeapLeaf {
    /// An unlinked leaf `(addr, value)`: `next_addr` is seeded to MAX; the
    /// tree builders relink it.
    pub fn entry(addr: BabyBear, value: BabyBear) -> (r: HeapLeaf)
        ensures
            r == (HeapLeaf { addr, value, next_addr: spec_sentinel_max() }),
    {
        HeapLeaf { addr, value, next_addr: sentinel_max() }
    }

    /// The ordered digest preimage `[addr, value, next_addr]`.
    pub fn preimage(&self) -> (r: [BabyBear; 3])
        ensures
            r@ == leaf_preimage(*self),
            r@ == seq![self.addr, self.value, self.next_addr],
    {
        let r = [self.addr, self.value, self.next_addr];
        assert(r@ =~= leaf_preimage(*self));
        r
    }

    /// The one-felt leaf digest `hash[addr, value, next_addr]`.
    pub fn digest(&self) -> (r: BabyBear)
        ensures
            r == spec_leaf_digest(*self),
            r == spec_hash(seq![self.addr, self.value, self.next_addr]),
    {
        let p = self.preimage();
        hash_many(p.as_slice())
    }

    /// The eight-felt leaf digest: all lanes of the absorb of the preimage.
    /// Lane 0 is [`HeapLeaf::digest`].
    pub fn digest8(&self) -> (r: [BabyBear; 8])
        ensures
            r@ == spec_leaf_digest8(*self),
            r@[0] == spec_leaf_digest(*self),
            r@ == spec_absorb(seq![self.addr, self.value, self.next_addr]),
    {
        let p = self.preimage();
        chip_absorb_all_lanes(p.len(), p.as_slice())
    }
}

/// The MIN sentinel leaf `{MIN, 0, MAX}`.
pub fn min_sentinel_leaf() -> (r: HeapLeaf)
    ensures
        r == spec_min_sentinel_leaf(),
{
    HeapLeaf { addr: sentinel_min(), value: BabyBear::new(0), next_addr: sentinel_max() }
}

// ---------------------------------------------------------------------------
// The chain model
// ---------------------------------------------------------------------------

/// A leaf at the genesis address with a nonzero value: an entry that would
/// displace the MIN sentinel.
pub open spec fn is_live_sentinel(l: HeapLeaf) -> bool {
    l.addr.value() == 0 && l.value.value() != 0
}

/// The leaves that are not at the genesis address, in order (caller copies
/// of the sentinel dropped).
pub open spec fn strip_sentinels(leaves: Seq<HeapLeaf>) -> Seq<HeapLeaf>
    decreases leaves.len(),
{
    if leaves.len() == 0 {
        seq![]
    } else if addr_of(leaves.last()) != 0 {
        strip_sentinels(leaves.drop_last()).push(leaves.last())
    } else {
        strip_sentinels(leaves.drop_last())
    }
}

/// The first position of `s` whose address is not below `a` (or `s.len()`).
pub open spec fn insert_pos(s: Seq<HeapLeaf>, a: int) -> nat
    decreases s.len(),
{
    if s.len() == 0 {
        0
    } else if addr_of(s[0]) < a {
        1 + insert_pos(s.drop_first(), a)
    } else {
        0
    }
}

/// Insert `l` before the first leaf whose address is not below its own.
pub open spec fn insert_by_addr(s: Seq<HeapLeaf>, l: HeapLeaf) -> Seq<HeapLeaf> {
    s.insert(insert_pos(s, addr_of(l)) as int, l)
}

/// Insertion sort by address (stable for distinct addresses).
pub open spec fn sort_by_addr(leaves: Seq<HeapLeaf>) -> Seq<HeapLeaf>
    decreases leaves.len(),
{
    if leaves.len() == 0 {
        seq![]
    } else {
        insert_by_addr(sort_by_addr(leaves.drop_last()), leaves.last())
    }
}

/// Every leaf points at its successor's address; the last one at MAX.
pub open spec fn relinked(s: Seq<HeapLeaf>) -> Seq<HeapLeaf> {
    Seq::new(
        s.len(),
        |i: int|
            HeapLeaf {
                addr: s[i].addr,
                value: s[i].value,
                next_addr: if i + 1 < s.len() {
                    s[i + 1].addr
                } else {
                    spec_sentinel_max()
                },
            },
    )
}

/// The sentinel-headed sorted leaf list before relinking.
pub open spec fn sorted_with_sentinel(leaves: Seq<HeapLeaf>) -> Seq<HeapLeaf> {
    sort_by_addr(strip_sentinels(leaves).push(spec_min_sentinel_leaf()))
}

/// **The committed chain** of a leaf list: sentinel-headed, sorted by
/// address, relinked.
pub open spec fn heap_chain(leaves: Seq<HeapLeaf>) -> Seq<HeapLeaf> {
    relinked(sorted_with_sentinel(leaves))
}

/// Addresses strictly increase along `s`.
pub open spec fn strictly_sorted(s: Seq<HeapLeaf>) -> bool {
    forall|i: int, j: int| 0 <= i < j < s.len() ==> addr_of(s[i]) < addr_of(s[j])
}

/// Addresses weakly increase along `s`.
pub open spec fn weakly_sorted(s: Seq<HeapLeaf>) -> bool {
    forall|i: int, j: int| 0 <= i < j < s.len() ==> addr_of(s[i]) <= addr_of(s[j])
}

/// The well-linked IMT invariant: each pointer is the successor's address,
/// the last pointer is MAX, and every address is below its pointer.
pub open spec fn well_linked(s: Seq<HeapLeaf>) -> bool {
    &&& forall|i: int|
        0 <= i < s.len() ==> (#[trigger] s[i]).next_addr == (if i + 1 < s.len() {
            s[i + 1].addr
        } else {
            spec_sentinel_max()
        })
    &&& forall|i: int| 0 <= i < s.len() ==> addr_of(#[trigger] s[i]) < SENTINEL_MAX_VALUE
}

/// A committed chain: headed by the MIN sentinel, strictly sorted, well linked.
pub open spec fn is_heap_chain(s: Seq<HeapLeaf>) -> bool {
    &&& s.len() >= 1
    &&& s[0].addr == spec_sentinel_min()
    &&& s[0].value == BabyBear::from_spec(0)
    &&& strictly_sorted(s)
    &&& well_linked(s)
}

/// The leaves of `s` carry pairwise distinct addresses.
pub open spec fn all_distinct_addrs(s: Seq<HeapLeaf>) -> bool {
    forall|i: int, j: int| 0 <= i < j < s.len() ==> addr_of(s[i]) != addr_of(s[j])
}

/// Every real entry lies strictly below the MAX sentinel.
pub open spec fn addrs_below_max(leaves: Seq<HeapLeaf>) -> bool {
    forall|i: int| 0 <= i < leaves.len() ==> addr_of(#[trigger] leaves[i]) < SENTINEL_MAX_VALUE
}

/// No leaf is a live entry at the genesis address.
pub open spec fn no_live_sentinel(leaves: Seq<HeapLeaf>) -> bool {
    forall|i: int| 0 <= i < leaves.len() ==> !is_live_sentinel(#[trigger] leaves[i])
}

/// The leaf list is representable as a chain: no live entry at the genesis
/// address, pairwise distinct addresses once the sentinel copies are dropped,
/// every address below MAX.
pub open spec fn chain_representable(leaves: Seq<HeapLeaf>) -> bool {
    &&& no_live_sentinel(leaves)
    &&& all_distinct_addrs(strip_sentinels(leaves))
    &&& addrs_below_max(leaves)
}

/// The `(addr, value)` content of a leaf; `next_addr` is rebuilt by relinking.
pub open spec fn proj(l: HeapLeaf) -> (BabyBear, BabyBear) {
    (l.addr, l.value)
}

/// The `(addr, value)` contents of a leaf list.
pub open spec fn proj_seq(s: Seq<HeapLeaf>) -> Seq<(BabyBear, BabyBear)> {
    s.map_values(|l: HeapLeaf| proj(l))
}

/// The real `(addr, value)` entries of a leaf list (sentinel copies dropped).
pub open spec fn entries_proj(leaves: Seq<HeapLeaf>) -> Seq<(BabyBear, BabyBear)> {
    proj_seq(strip_sentinels(leaves))
}

/// Two leaf lists carry the same real `(addr, value)` entries, in any order
/// and whatever their `next_addr` pointers.
pub open spec fn same_entries(l1: Seq<HeapLeaf>, l2: Seq<HeapLeaf>) -> bool {
    forall|p: (BabyBear, BabyBear)| entries_proj(l1).contains(p) <==> entries_proj(l2).contains(p)
}

// ---------------------------------------------------------------------------
// Lemmas about the chain model
// ---------------------------------------------------------------------------

/// What `insert_pos` finds: every leaf before it is below `a`, the leaf at
/// it (if any) is not.
pub proof fn lemma_insert_pos(s: Seq<HeapLeaf>, a: int)
    ensures
        insert_pos(s, a) <= s.len(),
        forall|j: int| 0 <= j < insert_pos(s, a) ==> addr_of(#[trigger] s[j]) < a,
        insert_pos(s, a) < s.len() ==> addr_of(s[insert_pos(s, a) as int]) >= a,
    decreases s.len(),
{
    if s.len() > 0 && addr_of(s[0]) < a {
        lemma_insert_pos(s.drop_first(), a);
        assert forall|j: int| 0 <= j < insert_pos(s, a) implies addr_of(#[trigger] s[j]) < a by {
            if j > 0 {
                assert(s[j] == s.drop_first()[j - 1]);
            }
        }
        if insert_pos(s, a) < s.len() {
            assert(s[insert_pos(s, a) as int] == s.drop_first()[insert_pos(s.drop_first(), a) as int]);
        }
    }
}

/// `insert_pos` is the first position that is not below `a`.
pub proof fn lemma_insert_pos_unique(s: Seq<HeapLeaf>, a: int, p: int)
    requires
        0 <= p <= s.len(),
        forall|j: int| 0 <= j < p ==> addr_of(#[trigger] s[j]) < a,
        p < s.len() ==> addr_of(s[p]) >= a,
    ensures
        insert_pos(s, a) == p,
    decreases s.len(),
{
    if p > 0 {
        assert forall|j: int| 0 <= j < p - 1 implies addr_of(#[trigger] s.drop_first()[j]) < a by {
            assert(s.drop_first()[j] == s[j + 1]);
        }
        if p - 1 < s.drop_first().len() {
            assert(s.drop_first()[p - 1] == s[p]);
        }
        lemma_insert_pos_unique(s.drop_first(), a, p - 1);
        assert(addr_of(s[0]) < a);
    }
}

/// Insertion sort: a weakly sorted rearrangement, strictly sorted exactly
/// when the addresses are distinct.
pub proof fn lemma_sort_by_addr(l: Seq<HeapLeaf>)
    ensures
        sort_by_addr(l).len() == l.len(),
        weakly_sorted(sort_by_addr(l)),
        forall|x: HeapLeaf| sort_by_addr(l).contains(x) <==> l.contains(x),
        strictly_sorted(sort_by_addr(l)) <==> all_distinct_addrs(l),
    decreases l.len(),
{
    if l.len() > 0 {
        let lp = l.drop_last();
        let x = l.last();
        let a = addr_of(x);
        lemma_sort_by_addr(lp);
        let s = sort_by_addr(lp);
        let p = insert_pos(s, a) as int;
        lemma_insert_pos(s, a);
        let r = s.insert(p, x);
        assert(r == sort_by_addr(l));
        assert forall|i: int| 0 <= i < r.len() implies #[trigger] r[i] == (if i < p {
            s[i]
        } else if i == p {
            x
        } else {
            s[i - 1]
        }) by {}
        // weakly sorted
        assert forall|i: int, j: int| 0 <= i < j < r.len() implies addr_of(r[i]) <= addr_of(r[j]) by {
            if j < p {
            } else if j == p {
            } else if i < p {
                if p < s.len() {
                    assert(addr_of(s[p]) <= addr_of(s[j - 1]));
                }
            } else if i == p {
                assert(addr_of(s[p]) <= addr_of(s[j - 1]));
            } else {
            }
        }
        // contents
        assert forall|y: HeapLeaf| r.contains(y) <==> l.contains(y) by {
            if r.contains(y) {
                let k = choose|k: int| 0 <= k < r.len() && r[k] == y;
                if k == p {
                    assert(l[l.len() - 1] == y);
                } else {
                    if k < p {
                        assert(s[k] == y);
                    } else {
                        assert(s[k - 1] == y);
                    }
                    assert(s.contains(y));
                    assert(lp.contains(y));
                    let m = choose|m: int| 0 <= m < lp.len() && lp[m] == y;
                    assert(l[m] == y);
                }
            }
            if l.contains(y) {
                let k = choose|k: int| 0 <= k < l.len() && l[k] == y;
                if k == l.len() - 1 {
                    assert(r[p] == y);
                } else {
                    assert(lp[k] == y);
                    assert(lp.contains(y));
                    let m = choose|m: int| 0 <= m < s.len() && s[m] == y;
                    if m < p {
                        assert(r[m] == y);
                    } else {
                        assert(r[m + 1] == y);
                    }
                }
            }
        }
        // strictness <==> distinctness
        let dup_in_s = exists|k: int| 0 <= k < s.len() && addr_of(#[trigger] s[k]) == a;
        assert(dup_in_s <==> (p < s.len() && addr_of(s[p]) == a)) by {
            if dup_in_s {
                let k = choose|k: int| 0 <= k < s.len() && addr_of(#[trigger] s[k]) == a;
                assert(k >= p);
                if k > p {
                    assert(addr_of(s[p]) <= addr_of(s[k]));
                }
            }
        }
        assert(dup_in_s <==> exists|k: int| 0 <= k < lp.len() && addr_of(#[trigger] lp[k]) == a) by {
            if dup_in_s {
                let k = choose|k: int| 0 <= k < s.len() && addr_of(#[trigger] s[k]) == a;
                assert(s.contains(s[k]));
                assert(lp.contains(s[k]));
                let m = choose|m: int| 0 <= m < lp.len() && lp[m] == s[k];
                assert(addr_of(lp[m]) == a);
            }
            if exists|k: int| 0 <= k < lp.len() && addr_of(#[trigger] lp[k]) == a {
                let k = choose|k: int| 0 <= k < lp.len() && addr_of(#[trigger] lp[k]) == a;
                assert(lp.contains(lp[k]));
                let m = choose|m: int| 0 <= m < s.len() && s[m] == lp[k];
                assert(addr_of(s[m]) == a);
            }
        }
        assert(all_distinct_addrs(l) <==> (all_distinct_addrs(lp) && !exists|k: int|
            0 <= k < lp.len() && addr_of(#[trigger] lp[k]) == a)) by {
            if all_distinct_addrs(l) {
                assert forall|i: int, j: int| 0 <= i < j < lp.len() implies addr_of(lp[i]) != addr_of(lp[j]) by {
                    assert(lp[i] == l[i] && lp[j] == l[j]);
                }
                if exists|k: int| 0 <= k < lp.len() && addr_of(#[trigger] lp[k]) == a {
                    let k = choose|k: int| 0 <= k < lp.len() && addr_of(#[trigger] lp[k]) == a;
                    assert(l[k] == lp[k]);
                    assert(addr_of(l[k]) != addr_of(l[l.len() - 1]));
                }
            }
            if all_distinct_addrs(lp) && !exists|k: int| 0 <= k < lp.len() && addr_of(#[trigger] lp[k]) == a {
                assert forall|i: int, j: int| 0 <= i < j < l.len() implies addr_of(l[i]) != addr_of(l[j]) by {
                    if j == l.len() - 1 {
                        assert(l[i] == lp[i]);
                    } else {
                        assert(lp[i] == l[i] && lp[j] == l[j]);
                    }
                }
            }
        }
        if strictly_sorted(r) {
            assert forall|i: int, j: int| 0 <= i < j < s.len() implies addr_of(s[i]) < addr_of(s[j]) by {
                let ri = if i < p { i } else { i + 1 };
                let rj = if j < p { j } else { j + 1 };
                assert(r[ri] == s[i] && r[rj] == s[j]);
                assert(addr_of(r[ri]) < addr_of(r[rj]));
            }
            if p < s.len() {
                assert(r[p + 1] == s[p]);
                assert(addr_of(r[p]) < addr_of(r[p + 1]));
            }
            assert(strictly_sorted(s) && !dup_in_s);
        }
        if strictly_sorted(s) && !dup_in_s {
            assert forall|i: int, j: int| 0 <= i < j < r.len() implies addr_of(r[i]) < addr_of(r[j]) by {
                if j < p {
                } else if j == p {
                } else if i < p {
                    if p < s.len() {
                        assert(addr_of(s[p]) <= addr_of(s[j - 1]));
                    }
                } else if i == p {
                    assert(addr_of(s[p]) <= addr_of(s[j - 1]));
                    assert(addr_of(s[p]) != a);
                } else {
                }
            }
        }
    }
}

/// What stripping keeps: exactly the leaves off the genesis address.
pub proof fn lemma_strip_sentinels(l: Seq<HeapLeaf>)
    ensures
        forall|x: HeapLeaf| #[trigger] strip_sentinels(l).contains(x) <==> (l.contains(x) && addr_of(x) != 0),
        strip_sentinels(l).len() <= l.len(),
    decreases l.len(),
{
    if l.len() == 0 {
        assert(strip_sentinels(l) =~= Seq::<HeapLeaf>::empty());
        assert forall|x: HeapLeaf| #[trigger] strip_sentinels(l).contains(x) <==> (l.contains(x) && addr_of(x) != 0) by {
            if strip_sentinels(l).contains(x) {
                let k = choose|k: int| 0 <= k < strip_sentinels(l).len() && strip_sentinels(l)[k] == x;
            }
            if l.contains(x) {
                let k = choose|k: int| 0 <= k < l.len() && l[k] == x;
            }
        }
    } else {
        let lp = l.drop_last();
        lemma_strip_sentinels(lp);
        if addr_of(l.last()) != 0 {
            assert(strip_sentinels(l) == strip_sentinels(lp).push(l.last()));
        } else {
            assert(strip_sentinels(l) == strip_sentinels(lp));
        }
        assert forall|x: HeapLeaf| #[trigger] strip_sentinels(l).contains(x) <==> (l.contains(x) && addr_of(x) != 0) by {
            if l.contains(x) && addr_of(x) != 0 {
                let k = choose|k: int| 0 <= k < l.len() && l[k] == x;
                if k < l.len() - 1 {
                    assert(lp[k] == x);
                    assert(lp.contains(x));
                    assert(strip_sentinels(lp).contains(x));
                    if addr_of(l.last()) != 0 {
                        let m = choose|m: int| 0 <= m < strip_sentinels(lp).len() && strip_sentinels(lp)[m] == x;
                        assert(strip_sentinels(l)[m] == x);
                    }
                } else {
                    assert(strip_sentinels(l)[strip_sentinels(l).len() - 1] == x);
                }
            }
            if strip_sentinels(l).contains(x) {
                let k = choose|k: int| 0 <= k < strip_sentinels(l).len() && strip_sentinels(l)[k] == x;
                if addr_of(l.last()) != 0 && k == strip_sentinels(l).len() - 1 {
                    assert(l[l.len() - 1] == x);
                } else {
                    assert(strip_sentinels(lp)[k] == x);
                    assert(strip_sentinels(lp).contains(x));
                    assert(lp.contains(x));
                    let m = choose|m: int| 0 <= m < lp.len() && lp[m] == x;
                    assert(l[m] == x);
                }
            }
        }
    }
}

/// A list with no leaf at the genesis address strips to itself.
pub proof fn lemma_strip_identity(l: Seq<HeapLeaf>)
    requires
        forall|i: int| 0 <= i < l.len() ==> addr_of(#[trigger] l[i]) != 0,
    ensures
        strip_sentinels(l) == l,
    decreases l.len(),
{
    if l.len() > 0 {
        lemma_strip_identity(l.drop_last());
        assert(l.drop_last().push(l.last()) =~= l);
    }
}

/// Two strictly key-sorted sequences with the same elements are equal.
pub proof fn lemma_strictly_sorted_unique<T>(a: Seq<T>, b: Seq<T>, key: spec_fn(T) -> int)
    requires
        forall|i: int, j: int| 0 <= i < j < a.len() ==> key(a[i]) < key(a[j]),
        forall|i: int, j: int| 0 <= i < j < b.len() ==> key(b[i]) < key(b[j]),
        forall|x: T| a.contains(x) <==> b.contains(x),
    ensures
        a == b,
    decreases a.len(),
{
    if a.len() == 0 {
        if b.len() > 0 {
            assert(b.contains(b[0]));
        }
        assert(a =~= b);
    } else {
        assert(a.contains(a[0]));
        assert(b.len() > 0);
        assert(b.contains(b[0]));
        let j = choose|j: int| 0 <= j < b.len() && b[j] == a[0];
        let i = choose|i: int| 0 <= i < a.len() && a[i] == b[0];
        if i > 0 {
            assert(key(a[0]) < key(a[i]));
            if j > 0 {
                assert(key(b[0]) < key(b[j]));
            }
            assert(false);
        }
        let a1 = a.drop_first();
        let b1 = b.drop_first();
        assert forall|x: T| a1.contains(x) <==> b1.contains(x) by {
            if a1.contains(x) {
                let k = choose|k: int| 0 <= k < a1.len() && a1[k] == x;
                assert(a[k + 1] == x);
                assert(a.contains(x));
                assert(key(a[0]) < key(a[k + 1]));
                let m = choose|m: int| 0 <= m < b.len() && b[m] == x;
                assert(m != 0);
                assert(b1[m - 1] == x);
            }
            if b1.contains(x) {
                let k = choose|k: int| 0 <= k < b1.len() && b1[k] == x;
                assert(b[k + 1] == x);
                assert(b.contains(x));
                assert(key(b[0]) < key(b[k + 1]));
                let m = choose|m: int| 0 <= m < a.len() && a[m] == x;
                assert(m != 0);
                assert(a1[m - 1] == x);
            }
        }
        lemma_strictly_sorted_unique(a1, b1, key);
        assert(a =~= b) by {
            assert forall|k: int| 0 <= k < a.len() implies a[k] == b[k] by {
                if k > 0 {
                    assert(a[k] == a1[k - 1] && b[k] == b1[k - 1]);
                }
            }
        }
    }
}

/// Relinking reads only the `(addr, value)` contents.
pub proof fn lemma_relinked_proj(a: Seq<HeapLeaf>, b: Seq<HeapLeaf>)
    requires
        proj_seq(a) == proj_seq(b),
    ensures
        relinked(a) == relinked(b),
{
    assert(a.len() == proj_seq(a).len());
    assert forall|i: int| 0 <= i < a.len() implies a[i].addr == b[i].addr && a[i].value == b[i].value by {
        assert(proj_seq(a)[i] == proj_seq(b)[i]);
    }
    assert(relinked(a) =~= relinked(b));
}

/// A well-linked list is its own relinking.
pub proof fn lemma_relinked_fixed(s: Seq<HeapLeaf>)
    requires
        well_linked(s),
    ensures
        relinked(s) == s,
{
    assert forall|i: int| 0 <= i < s.len() implies relinked(s)[i] == s[i] by {
        assert(s[i].next_addr == (if i + 1 < s.len() { s[i + 1].addr } else { spec_sentinel_max() }));
    }
    assert(relinked(s) =~= s);
}

/// The projection of a strictly sorted leaf list is strictly sorted by
/// address, and contains exactly the projections of its leaves.
pub proof fn lemma_proj_seq(s: Seq<HeapLeaf>)
    ensures
        proj_seq(s).len() == s.len(),
        forall|i: int| 0 <= i < s.len() ==> #[trigger] proj_seq(s)[i] == proj(s[i]),
        forall|p: (BabyBear, BabyBear)| proj_seq(s).contains(p) <==> exists|k: int| 0 <= k < s.len() && proj(#[trigger] s[k]) == p,
        strictly_sorted(s) ==> forall|i: int, j: int| 0 <= i < j < s.len() ==> (proj_seq(s)[i].0.value() as int) < (proj_seq(s)[j].0.value() as int),
{
    assert forall|p: (BabyBear, BabyBear)| proj_seq(s).contains(p) <==> exists|k: int| 0 <= k < s.len() && proj(#[trigger] s[k]) == p by {
        if proj_seq(s).contains(p) {
            let k = choose|k: int| 0 <= k < proj_seq(s).len() && proj_seq(s)[k] == p;
            assert(proj(s[k]) == p);
        }
        if exists|k: int| 0 <= k < s.len() && proj(#[trigger] s[k]) == p {
            let k = choose|k: int| 0 <= k < s.len() && proj(#[trigger] s[k]) == p;
            assert(proj_seq(s)[k] == p);
        }
    }
}

/// The sorted, sentinel-headed list of a representable leaf list: strictly
/// sorted, headed by the sentinel, every address below MAX, and its entries
/// are the sentinel's plus the real entries.
pub proof fn lemma_sorted_with_sentinel(l: Seq<HeapLeaf>)
    requires
        all_distinct_addrs(strip_sentinels(l)),
    ensures
        strictly_sorted(sorted_with_sentinel(l)),
        sorted_with_sentinel(l).len() == strip_sentinels(l).len() + 1,
        sorted_with_sentinel(l)[0] == spec_min_sentinel_leaf(),
        forall|x: HeapLeaf| sorted_with_sentinel(l).contains(x) <==> (x == spec_min_sentinel_leaf() || (l.contains(x) && addr_of(x) != 0)),
        addrs_below_max(l) <==> addrs_below_max(sorted_with_sentinel(l)),
{
    let st = strip_sentinels(l);
    let t = st.push(spec_min_sentinel_leaf());
    lemma_strip_sentinels(l);
    BabyBear::lemma_from_spec_value(0);
    BabyBear::lemma_from_spec_value(SENTINEL_MAX_VALUE);
    assert(all_distinct_addrs(t)) by {
        assert forall|i: int, j: int| 0 <= i < j < t.len() implies addr_of(t[i]) != addr_of(t[j]) by {
            assert(t[i] == st[i]);
            assert(st.contains(st[i]));
            if j < st.len() {
                assert(t[j] == st[j]);
            }
        }
    }
    lemma_sort_by_addr(t);
    let s = sort_by_addr(t);
    assert(forall|x: HeapLeaf| t.contains(x) <==> (x == spec_min_sentinel_leaf() || st.contains(x))) by {
        assert forall|x: HeapLeaf| t.contains(x) <==> (x == spec_min_sentinel_leaf() || st.contains(x)) by {
            if t.contains(x) {
                let k = choose|k: int| 0 <= k < t.len() && t[k] == x;
                if k < st.len() {
                    assert(st[k] == x);
                }
            }
            if x == spec_min_sentinel_leaf() {
                assert(t[t.len() - 1] == x);
            }
            if st.contains(x) {
                let k = choose|k: int| 0 <= k < st.len() && st[k] == x;
                assert(t[k] == x);
            }
        }
    }
    // the sentinel heads the list
    assert(t[t.len() - 1] == spec_min_sentinel_leaf());
    assert(t.contains(spec_min_sentinel_leaf()));
    assert(s.contains(spec_min_sentinel_leaf()));
    let k0 = choose|k: int| 0 <= k < s.len() && s[k] == spec_min_sentinel_leaf();
    if k0 > 0 {
        assert(addr_of(s[0]) < addr_of(s[k0]));
        assert(s.contains(s[0]));
        assert(false);
    }
    assert forall|x: HeapLeaf| s.contains(x) <==> (x == spec_min_sentinel_leaf() || (l.contains(x) && addr_of(x) != 0)) by {
        if s.contains(x) {
            assert(t.contains(x));
        }
        if x == spec_min_sentinel_leaf() || (l.contains(x) && addr_of(x) != 0) {
            if x != spec_min_sentinel_leaf() {
                assert(st.contains(x));
            }
            assert(t.contains(x));
        }
    }
    assert(addrs_below_max(l) <==> addrs_below_max(s)) by {
        if addrs_below_max(l) {
            assert forall|i: int| 0 <= i < s.len() implies addr_of(#[trigger] s[i]) < SENTINEL_MAX_VALUE by {
                assert(s.contains(s[i]));
                assert(t.contains(s[i]));
                if s[i] != spec_min_sentinel_leaf() {
                    assert(st.contains(s[i]));
                    assert(l.contains(s[i]));
                    let k = choose|k: int| 0 <= k < l.len() && l[k] == s[i];
                }
            }
        }
        if addrs_below_max(s) {
            assert forall|i: int| 0 <= i < l.len() implies addr_of(#[trigger] l[i]) < SENTINEL_MAX_VALUE by {
                if addr_of(l[i]) != 0 {
                    assert(l.contains(l[i]));
                    assert(st.contains(l[i]));
                    assert(t.contains(l[i]));
                    assert(s.contains(l[i]));
                    let k = choose|k: int| 0 <= k < s.len() && s[k] == l[i];
                }
            }
        }
    }
}

/// **The committed chain of a representable leaf list is a chain**: headed
/// by the sentinel, strictly sorted, well linked; its real entries are the
/// input's real entries.
pub proof fn lemma_heap_chain_is_chain(l: Seq<HeapLeaf>)
    requires
        chain_representable(l),
    ensures
        is_heap_chain(heap_chain(l)),
        heap_chain(l).len() == strip_sentinels(l).len() + 1,
        proj_seq(heap_chain(l)) == proj_seq(sorted_with_sentinel(l)),
{
    lemma_sorted_with_sentinel(l);
    let s = sorted_with_sentinel(l);
    let c = heap_chain(l);
    BabyBear::lemma_from_spec_value(0);
    assert(c[0].addr == s[0].addr);
    assert forall|i: int| 0 <= i < c.len() implies addr_of(#[trigger] c[i]) < SENTINEL_MAX_VALUE by {
        assert(c[i].addr == s[i].addr);
    }
    assert(strictly_sorted(c)) by {
        assert forall|i: int, j: int| 0 <= i < j < c.len() implies addr_of(c[i]) < addr_of(c[j]) by {
            assert(c[i].addr == s[i].addr && c[j].addr == s[j].addr);
        }
    }
    assert(proj_seq(c) =~= proj_seq(s));
}

/// **Order independence of the chain**: two representable leaf lists with
/// the same real `(addr, value)` entries commit the same chain.
pub proof fn lemma_heap_chain_same_entries(l1: Seq<HeapLeaf>, l2: Seq<HeapLeaf>)
    requires
        chain_representable(l1),
        chain_representable(l2),
        same_entries(l1, l2),
    ensures
        heap_chain(l1) == heap_chain(l2),
{
    lemma_sorted_with_sentinel(l1);
    lemma_sorted_with_sentinel(l2);
    let s1 = sorted_with_sentinel(l1);
    let s2 = sorted_with_sentinel(l2);
    lemma_proj_seq(s1);
    lemma_proj_seq(s2);
    lemma_proj_seq(strip_sentinels(l1));
    lemma_proj_seq(strip_sentinels(l2));
    lemma_strip_sentinels(l1);
    lemma_strip_sentinels(l2);
    let key = |p: (BabyBear, BabyBear)| p.0.value() as int;
    assert forall|p: (BabyBear, BabyBear)| proj_seq(s1).contains(p) <==> proj_seq(s2).contains(p) by {
        // p is in proj(s) iff p is the sentinel's or a real entry's
        if proj_seq(s1).contains(p) {
            let k = choose|k: int| 0 <= k < s1.len() && proj(#[trigger] s1[k]) == p;
            assert(s1.contains(s1[k]));
            if s1[k] == spec_min_sentinel_leaf() {
                assert(s2.contains(spec_min_sentinel_leaf()));
                let m = choose|m: int| 0 <= m < s2.len() && s2[m] == spec_min_sentinel_leaf();
                assert(proj(s2[m]) == p);
            } else {
                assert(strip_sentinels(l1).contains(s1[k]));
                let m = choose|m: int| 0 <= m < strip_sentinels(l1).len() && strip_sentinels(l1)[m] == s1[k];
                assert(proj(strip_sentinels(l1)[m]) == p);
                assert(entries_proj(l1).contains(p));
                assert(entries_proj(l2).contains(p));
                let n = choose|n: int| 0 <= n < strip_sentinels(l2).len() && proj(#[trigger] strip_sentinels(l2)[n]) == p;
                let y = strip_sentinels(l2)[n];
                assert(strip_sentinels(l2).contains(y));
                assert(s2.contains(y));
                let q = choose|q: int| 0 <= q < s2.len() && s2[q] == y;
                assert(proj(s2[q]) == p);
            }
        }
        if proj_seq(s2).contains(p) {
            let k = choose|k: int| 0 <= k < s2.len() && proj(#[trigger] s2[k]) == p;
            assert(s2.contains(s2[k]));
            if s2[k] == spec_min_sentinel_leaf() {
                assert(s1.contains(spec_min_sentinel_leaf()));
                let m = choose|m: int| 0 <= m < s1.len() && s1[m] == spec_min_sentinel_leaf();
                assert(proj(s1[m]) == p);
            } else {
                assert(strip_sentinels(l2).contains(s2[k]));
                let m = choose|m: int| 0 <= m < strip_sentinels(l2).len() && strip_sentinels(l2)[m] == s2[k];
                assert(proj(strip_sentinels(l2)[m]) == p);
                assert(entries_proj(l2).contains(p));
                assert(entries_proj(l1).contains(p));
                let n = choose|n: int| 0 <= n < strip_sentinels(l1).len() && proj(#[trigger] strip_sentinels(l1)[n]) == p;
                let y = strip_sentinels(l1)[n];
                assert(strip_sentinels(l1).contains(y));
                assert(s1.contains(y));
                let q = choose|q: int| 0 <= q < s1.len() && s1[q] == y;
                assert(proj(s1[q]) == p);
            }
        }
    }
    lemma_strictly_sorted_unique(proj_seq(s1), proj_seq(s2), key);
    lemma_relinked_proj(s1, s2);
}

/// **Idempotence of the chain**: rebuilding from a committed chain's real
/// entries reproduces the chain.
pub proof fn lemma_heap_chain_idempotent(c: Seq<HeapLeaf>)
    requires
        is_heap_chain(c),
    ensures
        chain_representable(c.drop_first()),
        heap_chain(c.drop_first()) == c,
{
    let e = c.drop_first();
    BabyBear::lemma_from_spec_value(0);
    assert forall|i: int| 0 <= i < e.len() implies addr_of(#[trigger] e[i]) != 0 by {
        assert(e[i] == c[i + 1]);
        assert(addr_of(c[0]) < addr_of(c[i + 1]));
    }
    lemma_strip_identity(e);
    assert(all_distinct_addrs(e)) by {
        assert forall|i: int, j: int| 0 <= i < j < e.len() implies addr_of(e[i]) != addr_of(e[j]) by {
            assert(e[i] == c[i + 1] && e[j] == c[j + 1]);
        }
    }
    assert(no_live_sentinel(e));
    assert(addrs_below_max(e)) by {
        assert forall|i: int| 0 <= i < e.len() implies addr_of(#[trigger] e[i]) < SENTINEL_MAX_VALUE by {
            assert(e[i] == c[i + 1]);
        }
    }
    lemma_sorted_with_sentinel(e);
    let s = sorted_with_sentinel(e);
    lemma_proj_seq(s);
    lemma_proj_seq(c);
    let key = |p: (BabyBear, BabyBear)| p.0.value() as int;
    assert forall|p: (BabyBear, BabyBear)| proj_seq(s).contains(p) <==> proj_seq(c).contains(p) by {
        if proj_seq(s).contains(p) {
            let k = choose|k: int| 0 <= k < s.len() && proj(#[trigger] s[k]) == p;
            assert(s.contains(s[k]));
            if s[k] == spec_min_sentinel_leaf() {
                assert(proj(c[0]) == p);
            } else {
                let m = choose|m: int| 0 <= m < e.len() && e[m] == s[k];
                assert(proj(c[m + 1]) == p);
            }
        }
        if proj_seq(c).contains(p) {
            let k = choose|k: int| 0 <= k < c.len() && proj(#[trigger] c[k]) == p;
            if k == 0 {
                assert(proj(s[0]) == p);
            } else {
                assert(e[k - 1] == c[k]);
                assert(e.contains(c[k]));
                assert(s.contains(c[k]));
                let m = choose|m: int| 0 <= m < s.len() && s[m] == c[k];
                assert(proj(s[m]) == p);
            }
        }
    }
    lemma_strictly_sorted_unique(proj_seq(s), proj_seq(c), key);
    lemma_relinked_proj(s, c);
    lemma_relinked_fixed(c);
}

// ---------------------------------------------------------------------------
// Assembling the chain
// ---------------------------------------------------------------------------

/// Why a heap tree refuses to commit a leaf list.
#[derive(Clone, Copy, Debug, PartialEq, Eq)]
pub enum HeapRootError {
    /// Leaf `index` is a live entry at the genesis address (value `value`).
    LiveSentinel { index: usize, value: u32 },
    /// Leaves `index` and `index + 1` of the sorted list share address `addr`.
    DuplicateAddress { index: usize, addr: u32 },
    /// Leaf `index` of the linked list is not below its pointer (it sits at MAX).
    NotWellLinked { index: usize, addr: u32 },
    /// The list (sentinel included) has `leaves` leaves, more than `2^depth`.
    CapacityExceeded { leaves: usize },
    /// The digest at `position` equals the padding digest.
    PadDigest { position: usize },
}

/// Adjacent leaves carry distinct addresses.
pub open spec fn adjacent_distinct(s: Seq<HeapLeaf>) -> bool {
    forall|i: int| 0 <= i < s.len() - 1 ==> addr_of(#[trigger] s[i]) != addr_of(s[i + 1])
}

/// Every leaf is below its pointer.
pub open spec fn below_pointers(s: Seq<HeapLeaf>) -> bool {
    forall|i: int| 0 <= i < s.len() ==> addr_of(#[trigger] s[i]) < s[i].next_addr.value()
}

/// A weakly sorted list with distinct neighbours is strictly sorted.
pub proof fn lemma_adjacent_strict(s: Seq<HeapLeaf>)
    requires
        weakly_sorted(s),
    ensures
        adjacent_distinct(s) <==> strictly_sorted(s),
{
    if adjacent_distinct(s) {
        assert forall|i: int, j: int| 0 <= i < j < s.len() implies addr_of(s[i]) < addr_of(s[j]) by {
            assert(addr_of(s[i]) != addr_of(s[i + 1]));
            assert(addr_of(s[i]) <= addr_of(s[i + 1]));
            if i + 1 < j {
                assert(addr_of(s[i + 1]) <= addr_of(s[j]));
            }
        }
    }
    if strictly_sorted(s) {
        assert forall|i: int| 0 <= i < s.len() - 1 implies addr_of(#[trigger] s[i]) != addr_of(s[i + 1]) by {
            assert(addr_of(s[i]) < addr_of(s[i + 1]));
        }
    }
}

/// **`strip_incoming_genesis_sentinel`** — drop caller copies of the MIN
/// sentinel (leaves at address `0` with value `0`), so that adding the
/// builder's own is idempotent; refuse a live entry at the genesis address.
pub fn strip_incoming_genesis_sentinel(leaves: &mut Vec<HeapLeaf>, tree: &str) -> (r: Result<(), HeapRootError>)
    ensures
        r is Ok <==> no_live_sentinel(old(leaves)@),
        r is Ok ==> final(leaves)@ == strip_sentinels(old(leaves)@),
        r is Err ==> final(leaves)@ == old(leaves)@,
        r matches Err(e) ==> e matches HeapRootError::LiveSentinel { index, value } && index < old(leaves)@.len()
            && is_live_sentinel(old(leaves)@[index as int])
            && value == old(leaves)@[index as int].value.value()
            && forall|j: int| 0 <= j < index ==> !is_live_sentinel(#[trigger] old(leaves)@[j]),
{
    let n = leaves.len();
    let mut i: usize = 0;
    while i < n
        invariant
            n == leaves@.len(),
            i <= n,
            forall|j: int| 0 <= j < i ==> !is_live_sentinel(#[trigger] leaves@[j]),
        decreases n - i,
    {
        let l = leaves[i];
        if l.addr.as_u32() == 0 && l.value.as_u32() != 0 {
            return Err(HeapRootError::LiveSentinel { index: i, value: l.value.as_u32() });
        }
        i = i + 1;
    }
    let ghost orig = leaves@;
    let mut out: Vec<HeapLeaf> = Vec::new();
    let mut k: usize = 0;
    while k < n
        invariant
            n == orig.len(),
            leaves@ == orig,
            k <= n,
            out@ == strip_sentinels(orig.take(k as int)),
        decreases n - k,
    {
        let l = leaves[k];
        assert(orig.take(k + 1).drop_last() =~= orig.take(k as int));
        assert(orig.take(k + 1).last() == l);
        if l.addr.as_u32() != 0 {
            out.push(l);
        }
        k = k + 1;
    }
    assert(orig.take(n as int) =~= orig);
    *leaves = out;
    Ok(())
}

/// Sort leaves by address (insertion sort; for distinct addresses the
/// order is the unique strictly increasing one).
fn sort_leaves_by_addr(leaves: &Vec<HeapLeaf>) -> (r: Vec<HeapLeaf>)
    ensures
        r@ == sort_by_addr(leaves@),
{
    let n = leaves.len();
    let mut out: Vec<HeapLeaf> = Vec::new();
    let mut i: usize = 0;
    while i < n
        invariant
            n == leaves@.len(),
            i <= n,
            out@ == sort_by_addr(leaves@.take(i as int)),
        decreases n - i,
    {
        let x = leaves[i];
        let key = x.addr.as_u32();
        let mut p: usize = 0;
        while p < out.len() && out[p].addr.as_u32() < key
            invariant
                p <= out@.len(),
                key == x.addr.value(),
                forall|j: int| 0 <= j < p ==> addr_of(#[trigger] out@[j]) < addr_of(x),
            decreases out@.len() - p,
        {
            p = p + 1;
        }
        proof {
            lemma_insert_pos_unique(out@, addr_of(x), p as int);
            assert(leaves@.take(i + 1).drop_last() =~= leaves@.take(i as int));
            assert(leaves@.take(i + 1).last() == x);
        }
        out.insert(p, x);
        i = i + 1;
    }
    assert(leaves@.take(n as int) =~= leaves@);
    out
}

/// **`assert_addr_unique`** — the guard that a leaf list already sorted by
/// address carries no two leaves at one address. A list with an adjacent
/// pair at one address is outside what the guard accepts: such a tree would
/// both present and deny an entry (the builders refuse it with
/// [`HeapRootError::DuplicateAddress`]). On what it accepts, a sorted list
/// is strictly sorted, so its addresses are pairwise distinct.
pub fn assert_addr_unique(leaves: &[HeapLeaf], tree: &str)
    requires
        adjacent_distinct(leaves@),
    ensures
        weakly_sorted(leaves@) ==> strictly_sorted(leaves@) && all_distinct_addrs(leaves@),
{
    proof {
        if weakly_sorted(leaves@) {
            lemma_adjacent_strict(leaves@);
            assert forall|i: int, j: int| 0 <= i < j < leaves@.len() implies addr_of(leaves@[i]) != addr_of(leaves@[j]) by {
                assert(addr_of(leaves@[i]) < addr_of(leaves@[j]));
            }
        }
    }
}

/// The first adjacent pair of a sorted leaf list that shares an address,
/// reported as [`HeapRootError::DuplicateAddress`].
fn check_addr_unique(leaves: &[HeapLeaf]) -> (r: Result<(), HeapRootError>)
    ensures
        r is Ok <==> adjacent_distinct(leaves@),
        r matches Err(e) ==> e matches HeapRootError::DuplicateAddress { index, addr } && index + 1 < leaves@.len()
            && addr_of(leaves@[index as int]) == addr && addr_of(leaves@[index + 1]) == addr
            && forall|j: int| 0 <= j < index ==> addr_of(#[trigger] leaves@[j]) != addr_of(leaves@[j + 1]),
{
    let n = leaves.len();
    if n == 0 {
        return Ok(());
    }
    let mut i: usize = 0;
    while i + 1 < n
        invariant
            n == leaves@.len(),
            n >= 1,
            i + 1 <= n,
            forall|j: int| 0 <= j < i ==> addr_of(#[trigger] leaves@[j]) != addr_of(leaves@[j + 1]),
        decreases n - i,
    {
        let a = leaves[i].addr.as_u32();
        if a == leaves[i + 1].addr.as_u32() {
            return Err(HeapRootError::DuplicateAddress { index: i, addr: a });
        }
        i = i + 1;
    }
    Ok(())
}

/// **`relink_next_addrs`** — point every leaf at its successor's address,
/// the last one at MAX; then refuse a leaf that is not below its pointer
/// (the first such leaf is reported).
pub fn relink_next_addrs(leaves: &mut Vec<HeapLeaf>) -> (r: Result<(), HeapRootError>)
    ensures
        final(leaves)@ == relinked(old(leaves)@),
        r is Ok <==> below_pointers(final(leaves)@),
        r matches Err(e) ==> e matches HeapRootError::NotWellLinked { index, addr } && index < final(leaves)@.len()
            && addr == addr_of(final(leaves)@[index as int])
            && addr_of(final(leaves)@[index as int]) >= final(leaves)@[index as int].next_addr.value()
            && forall|j: int| 0 <= j < index ==> addr_of(#[trigger] final(leaves)@[j]) < final(leaves)@[j].next_addr.value(),
{
    let ghost orig = leaves@;
    let n = leaves.len();
    let mut i: usize = 0;
    while i < n
        invariant
            n == orig.len(),
            leaves@.len() == n,
            i <= n,
            forall|j: int| 0 <= j < i ==> #[trigger] leaves@[j] == relinked(orig)[j],
            forall|j: int| i <= j < n ==> #[trigger] leaves@[j] == orig[j],
        decreases n - i,
    {
        let cur = leaves[i];
        let next = if i + 1 < n { leaves[i + 1].addr } else { sentinel_max() };
        leaves.set(i, HeapLeaf { addr: cur.addr, value: cur.value, next_addr: next });
        i = i + 1;
    }
    assert(leaves@ =~= relinked(orig));
    let mut k: usize = 0;
    while k < n
        invariant
            n == leaves@.len(),
            n == orig.len(),
            orig == old(leaves)@,
            leaves@ == relinked(orig),
            k <= n,
            forall|j: int| 0 <= j < k ==> addr_of(#[trigger] leaves@[j]) < leaves@[j].next_addr.value(),
        decreases n - k,
    {
        let l = leaves[k];
        if l.addr.as_u32() >= l.next_addr.as_u32() {
            return Err(HeapRootError::NotWellLinked { index: k, addr: l.addr.as_u32() });
        }
        k = k + 1;
    }
    Ok(())
}

/// The strictly sorted list `s` is below its relinked pointers exactly when
/// its last address is below MAX.
proof fn lemma_below_pointers_relinked(s: Seq<HeapLeaf>)
    requires
        strictly_sorted(s),
    ensures
        below_pointers(relinked(s)) <==> addrs_below_max(s),
{
    BabyBear::lemma_from_spec_value(SENTINEL_MAX_VALUE);
    let r = relinked(s);
    if below_pointers(r) {
        assert forall|i: int| 0 <= i < s.len() implies addr_of(#[trigger] s[i]) < SENTINEL_MAX_VALUE by {
            let last = s.len() - 1;
            assert(addr_of(r[last]) < r[last].next_addr.value());
            if i < last {
                assert(addr_of(s[i]) < addr_of(s[last]));
            }
        }
    }
    if addrs_below_max(s) {
        assert forall|i: int| 0 <= i < r.len() implies addr_of(#[trigger] r[i]) < r[i].next_addr.value() by {
            if i + 1 < s.len() {
                assert(addr_of(s[i]) < addr_of(s[i + 1]));
            }
        }
    }
}

/// **Assemble the committed chain** of a leaf list: strip caller sentinel
/// copies, add the MIN sentinel, sort by address, refuse a repeated address,
/// relink, refuse a leaf at MAX. The refusals are checked in that order.
pub fn build_chain(leaves: Vec<HeapLeaf>, tree: &str) -> (r: Result<Vec<HeapLeaf>, HeapRootError>)
    ensures
        r is Ok <==> chain_representable(leaves@),
        r matches Ok(v) ==> v@ == heap_chain(leaves@) && is_heap_chain(v@),
        r matches Err(e) ==> (e is LiveSentinel <==> !no_live_sentinel(leaves@)),
        r matches Err(e) ==> (e is DuplicateAddress <==> (no_live_sentinel(leaves@) && !all_distinct_addrs(strip_sentinels(leaves@)))),
        r matches Err(e) ==> (e is NotWellLinked <==> (no_live_sentinel(leaves@) && all_distinct_addrs(strip_sentinels(leaves@)) && !addrs_below_max(leaves@))),
{
    let ghost input = leaves@;
    let mut leaves = leaves;
    match strip_incoming_genesis_sentinel(&mut leaves, tree) {
        Ok(()) => {},
        Err(e) => {
            return Err(e);
        },
    }
    leaves.push(min_sentinel_leaf());
    proof {
        lemma_sort_by_addr(leaves@);
    }
    let mut sorted = sort_leaves_by_addr(&leaves);
    assert(sorted@ == sorted_with_sentinel(input));
    let ghost t = strip_sentinels(input).push(spec_min_sentinel_leaf());
    proof {
        lemma_adjacent_strict(sorted@);
        lemma_strip_sentinels(input);
        BabyBear::lemma_from_spec_value(0);
        assert(all_distinct_addrs(t) <==> all_distinct_addrs(strip_sentinels(input))) by {
            let st = strip_sentinels(input);
            if all_distinct_addrs(st) {
                assert forall|i: int, j: int| 0 <= i < j < t.len() implies addr_of(t[i]) != addr_of(t[j]) by {
                    assert(t[i] == st[i]);
                    assert(st.contains(st[i]));
                    if j < st.len() {
                        assert(t[j] == st[j]);
                    }
                }
            }
            if all_distinct_addrs(t) {
                assert forall|i: int, j: int| 0 <= i < j < st.len() implies addr_of(st[i]) != addr_of(st[j]) by {
                    assert(t[i] == st[i] && t[j] == st[j]);
                }
            }
        }
    }
    match check_addr_unique(sorted.as_slice()) {
        Ok(()) => {},
        Err(e) => {
            return Err(e);
        },
    }
    proof {
        lemma_sorted_with_sentinel(input);
        lemma_below_pointers_relinked(sorted@);
    }
    match relink_next_addrs(&mut sorted) {
        Ok(()) => {},
        Err(e) => {
            return Err(e);
        },
    }
    proof {
        lemma_heap_chain_is_chain(input);
    }
    Ok(sorted)
}

} // verus!
