//! The laws of the heap trees: what the builders, witnesses and in-place
//! writes promise of one another.
use vstd::prelude::*;
use vstd::arithmetic::power2::pow2;
use crate::field::BabyBear;
use crate::heap_leaf::{
    HeapLeaf, addr_of, heap_chain, is_heap_chain, chain_representable, same_entries, entries_proj,
    proj, proj_seq, strip_sentinels, sorted_with_sentinel, spec_min_sentinel_leaf, spec_sentinel_max,
    strictly_sorted, well_linked, SENTINEL_MAX_VALUE,
};
use crate::heap_tree::{
    HeapDigest, heap_root_of, linked_chain, insertable, insert_entries, inserted_chain, addr_present, addr_position,
    written_leaf, low_position, aafi_low_new, aafi_appended, aafi_layout, lookup_addr, walk_from,
    linked_walk, lemma_write_keeps_linked, lemma_insert_representable,
};

verus! {

// ---------------------------------------------------------------------------
// Rebuilds
// ---------------------------------------------------------------------------

/// **The root does not depend on the input order**: two representable leaf
/// lists with the same real `(addr, value)` entries have the same root, at
/// any width and depth.
pub proof fn lemma_root_order_independent<D: HeapDigest>(l1: Seq<HeapLeaf>, l2: Seq<HeapLeaf>, depth: nat)
    requires
        chain_representable(l1),
        chain_representable(l2),
        same_entries(l1, l2),
    ensures
        heap_root_of::<D>(heap_chain(l1), depth) == heap_root_of::<D>(heap_chain(l2), depth),
{
    crate::heap_leaf::lemma_heap_chain_same_entries(l1, l2);
}

/// The `(addr, value)` contents of a list with one more leaf.
proof fn lemma_proj_push(s: Seq<HeapLeaf>, x: HeapLeaf)
    ensures
        forall|p: (BabyBear, BabyBear)| #[trigger] proj_seq(s.push(x)).contains(p) <==> (proj_seq(s).contains(p) || p == proj(x)),
{
    crate::heap_leaf::lemma_proj_seq(s);
    crate::heap_leaf::lemma_proj_seq(s.push(x));
    assert forall|p: (BabyBear, BabyBear)| #[trigger] proj_seq(s.push(x)).contains(p) <==> (proj_seq(s).contains(p) || p == proj(x)) by {
        if proj_seq(s.push(x)).contains(p) {
            let k = choose|k: int| 0 <= k < s.push(x).len() && proj(#[trigger] s.push(x)[k]) == p;
            if k < s.len() {
                assert(proj(s[k]) == p);
            }
        }
        if proj_seq(s).contains(p) {
            let k = choose|k: int| 0 <= k < s.len() && proj(#[trigger] s[k]) == p;
            assert(proj(s.push(x)[k]) == p);
        }
        if p == proj(x) {
            assert(proj(s.push(x)[s.len() as int]) == p);
        }
    }
}

/// The real entries of a committed chain are the real entries of the list
/// it was built from.
proof fn lemma_chain_tail_entries(l: Seq<HeapLeaf>)
    requires
        chain_representable(l),
    ensures
        forall|p: (BabyBear, BabyBear)| #[trigger] proj_seq(heap_chain(l).drop_first()).contains(p) <==> entries_proj(l).contains(p),
{
    let c = heap_chain(l);
    let s = sorted_with_sentinel(l);
    crate::heap_leaf::lemma_heap_chain_is_chain(l);
    crate::heap_leaf::lemma_sorted_with_sentinel(l);
    crate::heap_leaf::lemma_strip_sentinels(l);
    crate::heap_leaf::lemma_proj_seq(c.drop_first());
    crate::heap_leaf::lemma_proj_seq(strip_sentinels(l));
    BabyBear::lemma_from_spec_value(0);
    assert forall|p: (BabyBear, BabyBear)| #[trigger] proj_seq(c.drop_first()).contains(p) <==> entries_proj(l).contains(p) by {
        if proj_seq(c.drop_first()).contains(p) {
            let k = choose|k: int| 0 <= k < c.drop_first().len() && proj(#[trigger] c.drop_first()[k]) == p;
            assert(proj_seq(c)[k + 1] == proj_seq(s)[k + 1]);
            let x = s[k + 1];
            assert(proj(x) == p);
            assert(addr_of(s[0]) < addr_of(s[k + 1]));
            assert(s.contains(x));
            assert(x != spec_min_sentinel_leaf());
            assert(strip_sentinels(l).contains(x));
            let m = choose|m: int| 0 <= m < strip_sentinels(l).len() && strip_sentinels(l)[m] == x;
            assert(proj(strip_sentinels(l)[m]) == p);
        }
        if entries_proj(l).contains(p) {
            let m = choose|m: int| 0 <= m < strip_sentinels(l).len() && proj(#[trigger] strip_sentinels(l)[m]) == p;
            let x = strip_sentinels(l)[m];
            assert(strip_sentinels(l).contains(x));
            assert(l.contains(x) && addr_of(x) != 0);
            assert(s.contains(x));
            let k = choose|k: int| 0 <= k < s.len() && s[k] == x;
            assert(k != 0);
            assert(proj_seq(c)[k] == proj_seq(s)[k]);
            assert(proj(c.drop_first()[k - 1]) == p);
        }
    }
}

/// **A sorted insert is the rebuild with the new entry**: the chain the
/// insert witness commits is the chain of the given list plus the new
/// leaf.
#[verifier::spinoff_prover]
pub proof fn lemma_insert_matches_rebuild(l: Seq<HeapLeaf>, leaf: HeapLeaf)
    requires
        chain_representable(l),
        insertable(heap_chain(l), leaf.addr),
    ensures
        chain_representable(l.push(leaf)),
        inserted_chain(heap_chain(l), leaf) == heap_chain(l.push(leaf)),
{
    let c = heap_chain(l);
    let e = insert_entries(c, leaf);
    crate::heap_leaf::lemma_heap_chain_is_chain(l);
    crate::heap_tree::lemma_heap_chain_linked(c);
    lemma_insert_representable(c, leaf);
    lemma_chain_tail_entries(l);
    crate::heap_leaf::lemma_strip_sentinels(l);
    crate::heap_leaf::lemma_sorted_with_sentinel(l);
    BabyBear::lemma_from_spec_value(0);
    let lp = l.push(leaf);
    assert(lp.drop_last() =~= l);
    assert(strip_sentinels(lp) == strip_sentinels(l).push(leaf));
    // the new address is absent from the list's real entries
    assert forall|i: int| 0 <= i < strip_sentinels(l).len() implies addr_of(#[trigger] strip_sentinels(l)[i]) != addr_of(leaf) by {
        let x = strip_sentinels(l)[i];
        assert(strip_sentinels(l).contains(x));
        assert(sorted_with_sentinel(l).contains(x));
        let k = choose|k: int| 0 <= k < sorted_with_sentinel(l).len() && sorted_with_sentinel(l)[k] == x;
        assert(c[k].addr == x.addr);
        if addr_of(x) == addr_of(leaf) {
            BabyBear::lemma_value_injective(x.addr, leaf.addr);
            assert(addr_present(c, leaf.addr));
        }
    }
    assert(crate::heap_leaf::all_distinct_addrs(strip_sentinels(lp))) by {
        let st = strip_sentinels(l);
        assert forall|i: int, j: int| 0 <= i < j < strip_sentinels(lp).len() implies addr_of(strip_sentinels(lp)[i]) != addr_of(strip_sentinels(lp)[j]) by {
            assert(strip_sentinels(lp)[i] == st[i]);
            if j < st.len() {
                assert(strip_sentinels(lp)[j] == st[j]);
            }
        }
    }
    assert(crate::heap_leaf::no_live_sentinel(lp)) by {
        assert forall|i: int| 0 <= i < lp.len() implies !crate::heap_leaf::is_live_sentinel(#[trigger] lp[i]) by {
            if i < l.len() {
                assert(lp[i] == l[i]);
            }
        }
    }
    assert(crate::heap_leaf::addrs_below_max(lp)) by {
        assert forall|i: int| 0 <= i < lp.len() implies addr_of(#[trigger] lp[i]) < SENTINEL_MAX_VALUE by {
            if i < l.len() {
                assert(lp[i] == l[i]);
            }
        }
    }
    // same entries: the chain's tail plus the leaf, and the list's entries plus the leaf
    crate::heap_leaf::lemma_strip_identity(e);
    lemma_proj_push(c.drop_first(), leaf);
    lemma_proj_push(strip_sentinels(l), leaf);
    assert(same_entries(e, lp));
    crate::heap_leaf::lemma_heap_chain_same_entries(e, lp);
}

/// **An in-place value write is the rebuild with the written entry**: a
/// representable list with the entries of the written chain rebuilds exactly
/// the written chain. (Writes at the sentinel position are excluded: a
/// rebuild refuses a live value there.)
pub proof fn lemma_write_matches_rebuild(c: Seq<HeapLeaf>, pos: int, value: BabyBear, l: Seq<HeapLeaf>)
    requires
        is_heap_chain(c),
        1 <= pos < c.len(),
        chain_representable(l),
        same_entries(l, c.update(pos, written_leaf(c[pos], value)).drop_first()),
    ensures
        heap_chain(l) == c.update(pos, written_leaf(c[pos], value)),
{
    let w = c.update(pos, written_leaf(c[pos], value));
    crate::heap_tree::lemma_heap_chain_linked(c);
    lemma_write_keeps_linked(c, pos, value);
    assert(w[0] == c[0]);
    assert(is_heap_chain(w));
    crate::heap_leaf::lemma_heap_chain_idempotent(w);
    crate::heap_leaf::lemma_heap_chain_same_entries(l, w.drop_first());
}

/// **Writes keep a rebuildable commitment**: a value write at a real
/// (non-sentinel) position of a committed chain leaves a committed chain,
/// which the rebuild from its real leaves reproduces. By induction, after
/// any sequence of such writes the tree's root is the root of the rebuild
/// from its leaves.
pub proof fn lemma_write_keeps_commitment(c: Seq<HeapLeaf>, pos: int, value: BabyBear)
    requires
        is_heap_chain(c),
        1 <= pos < c.len(),
    ensures
        is_heap_chain(c.update(pos, written_leaf(c[pos], value))),
        chain_representable(c.update(pos, written_leaf(c[pos], value)).drop_first()),
        heap_chain(c.update(pos, written_leaf(c[pos], value)).drop_first()) == c.update(pos, written_leaf(c[pos], value)),
{
    let w = c.update(pos, written_leaf(c[pos], value));
    crate::heap_tree::lemma_heap_chain_linked(c);
    lemma_write_keeps_linked(c, pos, value);
    assert(w[0] == c[0]);
    assert(is_heap_chain(w));
    crate::heap_leaf::lemma_heap_chain_idempotent(w);
}

// ---------------------------------------------------------------------------
// The append-at-free-index insert
// ---------------------------------------------------------------------------

/// The pointer gap of `l` brackets `k`: `l.addr < k < l.next_addr`.
pub open spec fn brackets(l: HeapLeaf, k: BabyBear) -> bool {
    addr_of(l) < k.value() && k.value() < l.next_addr.value()
}

/// **The indexed-Merkle-tree insert** on a leaf list: splice `(k, v)` after
/// the first leaf whose pointer gap brackets `k`, that leaf now pointing at
/// `k` and the new leaf at its old pointer; the list is unchanged when no
/// gap brackets `k`.
pub open spec fn imt_insert(c: Seq<HeapLeaf>, k: BabyBear, v: BabyBear) -> Seq<HeapLeaf>
    decreases c.len(),
{
    if c.len() == 0 {
        c
    } else if brackets(c[0], k) {
        seq![
            HeapLeaf { addr: c[0].addr, value: c[0].value, next_addr: k },
            HeapLeaf { addr: k, value: v, next_addr: c[0].next_addr },
        ] + c.drop_first()
    } else {
        seq![c[0]] + imt_insert(c.drop_first(), k, v)
    }
}

/// The splice of `(k, v)` after position `j`.
pub open spec fn splice_at(c: Seq<HeapLeaf>, j: int, k: BabyBear, v: BabyBear) -> Seq<HeapLeaf> {
    c.take(j) + seq![
        HeapLeaf { addr: c[j].addr, value: c[j].value, next_addr: k },
        HeapLeaf { addr: k, value: v, next_addr: c[j].next_addr },
    ] + c.skip(j + 1)
}

/// The insert splices after the first bracketing leaf.
proof fn lemma_imt_insert_at(c: Seq<HeapLeaf>, j: int, k: BabyBear, v: BabyBear)
    requires
        0 <= j < c.len(),
        forall|i: int| 0 <= i < j ==> !brackets(#[trigger] c[i], k),
        brackets(c[j], k),
    ensures
        imt_insert(c, k, v) == splice_at(c, j, k, v),
    decreases j,
{
    if j == 0 {
        assert(c.take(0) =~= Seq::<HeapLeaf>::empty());
        assert(c.skip(1) =~= c.drop_first());
        assert(imt_insert(c, k, v) =~= splice_at(c, j, k, v));
    } else {
        let d = c.drop_first();
        assert forall|i: int| 0 <= i < j - 1 implies !brackets(#[trigger] d[i], k) by {
            assert(d[i] == c[i + 1]);
        }
        assert(d[j - 1] == c[j]);
        assert(!brackets(c[0], k));
        lemma_imt_insert_at(d, j - 1, k, v);
        assert(seq![c[0]] + splice_at(d, j - 1, k, v) =~= splice_at(c, j, k, v));
    }
}

/// An insertable key has a low leaf in a linked chain.
proof fn lemma_low_exists(c: Seq<HeapLeaf>, k: BabyBear)
    requires
        strictly_sorted(c),
        c.len() >= 1,
        addr_of(c[0]) < k.value(),
        forall|i: int| 0 <= i < c.len() ==> addr_of(#[trigger] c[i]) != k.value(),
    ensures
        exists|i: int|
            0 <= i < c.len() && addr_of(#[trigger] c[i]) < k.value() && (i + 1 == c.len() || addr_of(c[i + 1]) > k.value()),
    decreases c.len(),
{
    let n = c.len();
    if addr_of(c[n - 1]) < k.value() {
        assert(addr_of(c[n - 1]) < k.value() && (n - 1 + 1 == n));
    } else {
        let d = c.drop_last();
        assert forall|i: int| 0 <= i < d.len() implies addr_of(#[trigger] d[i]) != k.value() by {
            assert(d[i] == c[i]);
        }
        assert(d[0] == c[0]);
        lemma_low_exists(d, k);
        let i = choose|i: int|
            0 <= i < d.len() && addr_of(#[trigger] d[i]) < k.value() && (i + 1 == d.len() || addr_of(d[i + 1]) > k.value());
        assert(c[i] == d[i]);
        if i + 1 < d.len() {
            assert(c[i + 1] == d[i + 1]);
        }
        assert(addr_of(c[i]) < k.value() && (i + 1 == c.len() || addr_of(c[i + 1]) > k.value()));
    }
}

/// What the low leaf of an insertable key is in a linked chain: the last
/// leaf below the key, whose pointer gap brackets it, and the first such.
proof fn lemma_low_facts(c: Seq<HeapLeaf>, k: BabyBear)
    requires
        linked_chain(c),
        insertable(c, k),
    ensures
        0 <= low_position(c, k) < c.len(),
        addr_of(c[low_position(c, k)]) < k.value(),
        low_position(c, k) + 1 == c.len() || addr_of(c[low_position(c, k) + 1]) > k.value(),
        brackets(c[low_position(c, k)], k),
        forall|i: int| 0 <= i < low_position(c, k) ==> !brackets(#[trigger] c[i], k),
        forall|i: int| 0 <= i < c.len() ==> addr_of(#[trigger] c[i]) != k.value(),
{
    BabyBear::lemma_from_spec_value(SENTINEL_MAX_VALUE);
    assert forall|i: int| 0 <= i < c.len() implies addr_of(#[trigger] c[i]) != k.value() by {
        if addr_of(c[i]) == k.value() {
            BabyBear::lemma_value_injective(c[i].addr, k);
            assert(addr_present(c, k));
        }
    }
    lemma_low_exists(c, k);
    let j = choose|i: int|
        0 <= i < c.len() && addr_of(#[trigger] c[i]) < k.value() && (i + 1 == c.len() || addr_of(c[i + 1]) > k.value());
    crate::heap_tree::lemma_low_position(c, k, j);
    let lo = low_position(c, k);
    assert(c[lo].next_addr == (if lo + 1 < c.len() { c[lo + 1].addr } else { spec_sentinel_max() }));
    assert forall|i: int| 0 <= i < lo implies !brackets(#[trigger] c[i], k) by {
        assert(c[i].next_addr == c[i + 1].addr);
        if i + 1 < lo {
            assert(addr_of(c[i + 1]) < addr_of(c[lo]));
        }
    }
}

/// The spliced chain of an insertable key, position by position.
#[verifier::spinoff_prover]
proof fn lemma_splice_index(c: Seq<HeapLeaf>, k: BabyBear, v: BabyBear)
    requires
        linked_chain(c),
        insertable(c, k),
    ensures
        ({
            let lo = low_position(c, k);
            let sp = splice_at(c, lo, k, v);
            &&& sp.len() == c.len() + 1
            &&& forall|i: int| 0 <= i < lo ==> #[trigger] sp[i] == c[i]
            &&& sp[lo] == aafi_low_new(c, k)
            &&& sp[lo + 1] == aafi_appended(c, k, v)
            &&& forall|i: int| lo + 1 < i <= c.len() ==> #[trigger] sp[i] == c[i - 1]
        }),
{
    lemma_low_facts(c, k);
}

/// **The insert keeps the chain linked**: the spliced chain of an
/// insertable key is a linked chain with the same head address and value.
#[verifier::spinoff_prover]
proof fn lemma_splice_linked(c: Seq<HeapLeaf>, k: BabyBear, v: BabyBear)
    requires
        linked_chain(c),
        insertable(c, k),
    ensures
        linked_chain(splice_at(c, low_position(c, k), k, v)),
        splice_at(c, low_position(c, k), k, v)[0].addr == c[0].addr,
        splice_at(c, low_position(c, k), k, v)[0].value == c[0].value,
{
    let lo = low_position(c, k);
    let sp = splice_at(c, lo, k, v);
    let n = c.len();
    lemma_low_facts(c, k);
    lemma_splice_index(c, k, v);
    BabyBear::lemma_from_spec_value(SENTINEL_MAX_VALUE);
    // addresses along the splice
    assert forall|i: int| 0 <= i <= n implies #[trigger] addr_of(sp[i]) == (if i <= lo {
        addr_of(c[i])
    } else if i == lo + 1 {
        k.value() as int
    } else {
        addr_of(c[i - 1])
    }) by {}
    assert(strictly_sorted(sp)) by {
        assert forall|i: int, j: int| 0 <= i < j < sp.len() implies addr_of(sp[i]) < addr_of(sp[j]) by {
            assert(addr_of(sp[i]) == (if i <= lo { addr_of(c[i]) } else if i == lo + 1 { k.value() as int } else { addr_of(c[i - 1]) }));
            assert(addr_of(sp[j]) == (if j <= lo { addr_of(c[j]) } else if j == lo + 1 { k.value() as int } else { addr_of(c[j - 1]) }));
            if i <= lo && j <= lo {
            } else if i <= lo && j == lo + 1 {
                if i < lo {
                    assert(addr_of(c[i]) < addr_of(c[lo]));
                }
            } else if i <= lo {
                if i < j - 1 {
                    assert(addr_of(c[i]) < addr_of(c[j - 1]));
                }
            } else if i == lo + 1 {
                if lo + 1 < j - 1 {
                    assert(addr_of(c[lo + 1]) < addr_of(c[j - 1]));
                }
            } else {
            }
        }
    }
    assert(well_linked(sp)) by {
        assert forall|i: int| 0 <= i < sp.len() implies (#[trigger] sp[i]).next_addr == (if i + 1 < sp.len() {
            sp[i + 1].addr
        } else {
            spec_sentinel_max()
        }) by {
            if i < lo {
                assert(c[i].next_addr == c[i + 1].addr);
                if i + 1 == lo {
                    assert(sp[i + 1].addr == c[lo].addr);
                }
            } else if i == lo {
            } else if i == lo + 1 {
                assert(c[lo].next_addr == (if lo + 1 < n { c[lo + 1].addr } else { spec_sentinel_max() }));
            } else {
                assert(c[i - 1].next_addr == (if i < n { c[i].addr } else { spec_sentinel_max() }));
            }
        }
        assert forall|i: int| 0 <= i < sp.len() implies addr_of(#[trigger] sp[i]) < SENTINEL_MAX_VALUE by {
            assert(addr_of(sp[i]) == (if i <= lo { addr_of(c[i]) } else if i == lo + 1 { k.value() as int } else { addr_of(c[i - 1]) }));
        }
    }
    if lo == 0 {
        assert(sp[0] == aafi_low_new(c, k));
    } else {
        assert(sp[0] == c[0]);
    }
}

/// Looking up an address held by exactly one leaf finds that leaf.
proof fn lemma_lookup_unique(s: Seq<HeapLeaf>, j: int)
    requires
        0 <= j < s.len(),
        forall|m: int| 0 <= m < s.len() && m != j ==> addr_of(#[trigger] s[m]) != addr_of(s[j]),
    ensures
        lookup_addr(s, addr_of(s[j])) == Some(s[j]),
    decreases s.len(),
{
    if j + 1 < s.len() {
        let d = s.drop_last();
        assert(addr_of(s[s.len() - 1]) != addr_of(s[j]));
        assert forall|m: int| 0 <= m < d.len() && m != j implies addr_of(#[trigger] d[m]) != addr_of(d[j]) by {
            assert(d[m] == s[m] && d[j] == s[j]);
        }
        lemma_lookup_unique(d, j);
    }
}

/// Every leaf of the spliced chain is what the layout's lookup finds at its
/// address.
#[verifier::spinoff_prover]
proof fn lemma_layout_lookup(c: Seq<HeapLeaf>, k: BabyBear, v: BabyBear, i: int)
    requires
        linked_chain(c),
        insertable(c, k),
        0 <= i <= c.len(),
    ensures
        lookup_addr(aafi_layout(c, k, v), addr_of(splice_at(c, low_position(c, k), k, v)[i]))
            == Some(splice_at(c, low_position(c, k), k, v)[i]),
{
    let lo = low_position(c, k);
    let sp = splice_at(c, lo, k, v);
    let lay = aafi_layout(c, k, v);
    let n = c.len();
    lemma_low_facts(c, k);
    lemma_splice_index(c, k, v);
    assert(lay.len() == n + 1);
    assert forall|m: int| 0 <= m < n + 1 implies #[trigger] addr_of(lay[m]) == (if m < n { addr_of(c[m]) } else { k.value() as int }) by {
        if m < n && m != lo {
            assert(lay[m] == c[m]);
        }
    }
    let j = if i <= lo { i } else if i == lo + 1 { n as int } else { i - 1 };
    assert(lay[j] == sp[i]) by {
        if i < lo {
            assert(lay[j] == c[i]);
        }
    }
    assert forall|m: int| 0 <= m < lay.len() && m != j implies addr_of(#[trigger] lay[m]) != addr_of(lay[j]) by {
        assert(addr_of(lay[m]) == (if m < n { addr_of(c[m]) } else { k.value() as int }));
        assert(addr_of(lay[j]) == (if j < n { addr_of(c[j]) } else { k.value() as int }));
        if m < n && j < n {
            if m < j {
                assert(addr_of(c[m]) < addr_of(c[j]));
            } else {
                assert(addr_of(c[j]) < addr_of(c[m]));
            }
        }
    }
    lemma_lookup_unique(lay, j);
}

/// Walking the layout from leaf `i` of the spliced chain yields the rest of
/// the spliced chain.
#[verifier::spinoff_prover]
proof fn lemma_walk_tail(c: Seq<HeapLeaf>, k: BabyBear, v: BabyBear, i: int)
    requires
        linked_chain(c),
        insertable(c, k),
        0 <= i <= c.len(),
    ensures
        walk_from(aafi_layout(c, k, v), splice_at(c, low_position(c, k), k, v)[i], i as nat)
            == Some(splice_at(c, low_position(c, k), k, v).skip(i)),
    decreases c.len() - i,
{
    let lo = low_position(c, k);
    let sp = splice_at(c, lo, k, v);
    let lay = aafi_layout(c, k, v);
    lemma_low_facts(c, k);
    lemma_splice_index(c, k, v);
    lemma_splice_linked(c, k, v);
    BabyBear::lemma_from_spec_value(SENTINEL_MAX_VALUE);
    assert(lay.len() == c.len() + 1);
    assert(sp[i].next_addr == (if i + 1 < sp.len() { sp[i + 1].addr } else { spec_sentinel_max() }));
    if i == c.len() {
        assert(sp.skip(i) =~= seq![sp[i]]);
    } else {
        assert(addr_of(sp[i + 1]) < SENTINEL_MAX_VALUE);
        lemma_layout_lookup(c, k, v, i + 1);
        lemma_walk_tail(c, k, v, i + 1);
        assert(seq![sp[i]] + sp.skip(i + 1) =~= sp.skip(i));
    }
}

/// **The append-at-free-index layout walks to the indexed-Merkle-tree
/// insert**: following the pointers of the post-insert physical layout from
/// the MIN address yields `imt_insert` of the chain, which is again a linked
/// chain, one leaf longer.
#[verifier::spinoff_prover]
pub proof fn lemma_aafi_walk_is_imt_insert(c: Seq<HeapLeaf>, k: BabyBear, v: BabyBear)
    requires
        linked_chain(c),
        insertable(c, k),
    ensures
        linked_walk(aafi_layout(c, k, v)) == Some(imt_insert(c, k, v)),
        linked_chain(imt_insert(c, k, v)),
        imt_insert(c, k, v).len() == c.len() + 1,
        addr_present(imt_insert(c, k, v), k),
{
    let lo = low_position(c, k);
    let sp = splice_at(c, lo, k, v);
    lemma_low_facts(c, k);
    lemma_imt_insert_at(c, lo, k, v);
    lemma_splice_index(c, k, v);
    lemma_splice_linked(c, k, v);
    lemma_layout_lookup(c, k, v, 0);
    lemma_walk_tail(c, k, v, 0);
    assert(sp.skip(0) =~= sp);
    assert(addr_of(sp[0]) == 0);
    assert(sp[lo + 1].addr == k);
}

/// The real entries of the spliced chain are the chain's real entries plus
/// the new one.
#[verifier::spinoff_prover]
#[verifier::rlimit(30)]
proof fn lemma_splice_entries(c: Seq<HeapLeaf>, leaf: HeapLeaf)
    requires
        linked_chain(c),
        insertable(c, leaf.addr),
    ensures
        same_entries(insert_entries(c, leaf), splice_at(c, low_position(c, leaf.addr), leaf.addr, leaf.value).drop_first()),
{
    let k = leaf.addr;
    let v = leaf.value;
    let lo = low_position(c, k);
    let sp = splice_at(c, lo, k, v);
    lemma_low_facts(c, k);
    lemma_splice_index(c, k, v);
    lemma_splice_linked(c, k, v);
    let e = insert_entries(c, leaf);
    let t = sp.drop_first();
    BabyBear::lemma_from_spec_value(0);
    assert forall|i: int| 0 <= i < e.len() implies addr_of(#[trigger] e[i]) != 0 by {
        if i < e.len() - 1 {
            assert(e[i] == c[i + 1]);
            assert(addr_of(c[0]) < addr_of(c[i + 1]));
        }
    }
    assert forall|i: int| 0 <= i < t.len() implies addr_of(#[trigger] t[i]) != 0 by {
        assert(t[i] == sp[i + 1]);
        assert(addr_of(sp[0]) < addr_of(sp[i + 1]));
    }
    crate::heap_leaf::lemma_strip_identity(e);
    crate::heap_leaf::lemma_strip_identity(t);
    crate::heap_leaf::lemma_proj_seq(e);
    crate::heap_leaf::lemma_proj_seq(t);
    assert forall|p: (BabyBear, BabyBear)| entries_proj(e).contains(p) <==> entries_proj(t).contains(p) by {
        if entries_proj(e).contains(p) {
            let m = choose|m: int| 0 <= m < e.len() && proj(#[trigger] e[m]) == p;
            if m == e.len() - 1 {
                assert(proj(t[lo]) == p);
            } else {
                assert(e[m] == c[m + 1]);
                let q = m + 1;
                if q < lo {
                    assert(proj(t[q - 1]) == p);
                } else if q == lo {
                    assert(proj(sp[lo]) == proj(c[lo]));
                    assert(proj(t[q - 1]) == p);
                } else {
                    assert(sp[q + 1] == c[q]);
                    assert(proj(t[q]) == p);
                }
            }
        }
        if entries_proj(t).contains(p) {
            let m = choose|m: int| 0 <= m < t.len() && proj(#[trigger] t[m]) == p;
            let q = m + 1;
            if q < lo {
                assert(proj(e[q - 1]) == p);
            } else if q == lo {
                assert(proj(sp[lo]) == proj(c[lo]));
                assert(proj(e[q - 1]) == p);
            } else if q == lo + 1 {
                assert(proj(e[e.len() - 1]) == p);
            } else {
                assert(sp[q] == c[q - 1]);
                assert(proj(e[q - 2]) == p);
            }
        }
    }
}

/// **The indexed-Merkle-tree insert is the sorted insert**: on a committed
/// chain, `imt_insert` of an insertable key is the committed chain of the
/// real entries plus the new entry (the chain the sorted insert witness
/// rebuilds), and is itself a committed chain.
#[verifier::spinoff_prover]
pub proof fn lemma_imt_insert_is_sorted_insert(c: Seq<HeapLeaf>, leaf: HeapLeaf)
    requires
        is_heap_chain(c),
        insertable(c, leaf.addr),
    ensures
        is_heap_chain(imt_insert(c, leaf.addr, leaf.value)),
        imt_insert(c, leaf.addr, leaf.value) == inserted_chain(c, leaf),
{
    let k = leaf.addr;
    let v = leaf.value;
    let lo = low_position(c, k);
    let sp = splice_at(c, lo, k, v);
    crate::heap_tree::lemma_heap_chain_linked(c);
    lemma_low_facts(c, k);
    lemma_imt_insert_at(c, lo, k, v);
    lemma_splice_linked(c, k, v);
    assert(is_heap_chain(sp));
    crate::heap_leaf::lemma_heap_chain_idempotent(sp);
    lemma_insert_representable(c, leaf);
    lemma_splice_entries(c, leaf);
    crate::heap_leaf::lemma_heap_chain_same_entries(insert_entries(c, leaf), sp.drop_first());
}

/// **The inserted leaf points at the least stored address above its key**:
/// in the chain a sorted insert commits, the new leaf carries its key and
/// value, and its pointer is the smallest address of the old chain above
/// the key, or MAX when there is none.
#[verifier::spinoff_prover]
#[verifier::rlimit(40)]
pub proof fn lemma_insert_points_past_key(c: Seq<HeapLeaf>, leaf: HeapLeaf)
    requires
        is_heap_chain(c),
        insertable(c, leaf.addr),
    ensures
        ({
            let nc = inserted_chain(c, leaf);
            let p = addr_position(nc, leaf.addr);
            let nxt = nc[p].next_addr;
            &&& 0 <= p < nc.len()
            &&& nc[p].addr == leaf.addr && nc[p].value == leaf.value
            &&& addr_of(c[0]) < leaf.addr.value() < nxt.value()
            &&& forall|j: int| 0 <= j < c.len() && addr_of(#[trigger] c[j]) > leaf.addr.value() ==> addr_of(c[j]) >= nxt.value()
            &&& (nxt == spec_sentinel_max() || exists|j: int| 0 <= j < c.len() && #[trigger] c[j].addr == nxt)
        }),
{
    let k = leaf.addr;
    let v = leaf.value;
    lemma_imt_insert_is_sorted_insert(c, leaf);
    crate::heap_tree::lemma_heap_chain_linked(c);
    lemma_low_facts(c, k);
    let lo = low_position(c, k);
    let nc = inserted_chain(c, leaf);
    let sp = splice_at(c, lo, k, v);
    lemma_imt_insert_at(c, lo, k, v);
    assert(nc == sp);
    assert(sp[lo + 1] == HeapLeaf { addr: k, value: v, next_addr: c[lo].next_addr });
    crate::heap_tree::lemma_addr_position(nc, k, lo + 1);
    let nxt = c[lo].next_addr;
    assert forall|j: int| 0 <= j < c.len() && addr_of(#[trigger] c[j]) > k.value() implies addr_of(c[j]) >= nxt.value() by {
        if j <= lo {
            if j < lo {
                assert(addr_of(c[j]) < addr_of(c[lo]));
            }
        } else if j > lo + 1 {
            assert(addr_of(c[lo + 1]) < addr_of(c[j]));
        }
    }
    if lo + 1 < c.len() {
        assert(c[lo + 1].addr == nxt);
    }
    if lo > 0 {
        assert(addr_of(c[0]) < addr_of(c[lo]));
    }
}

/// Dropping the sentinel copies keeps each real leaf's multiplicity.
proof fn lemma_strip_count(l: Seq<HeapLeaf>, x: HeapLeaf)
    ensures
        strip_sentinels(l).to_multiset().count(x) == (if addr_of(x) != 0 {
            l.to_multiset().count(x)
        } else {
            0
        }),
    decreases l.len(),
{
    broadcast use vstd::multiset::group_multiset_axioms;
    if l.len() == 0 {
        assert(strip_sentinels(l) =~= Seq::<HeapLeaf>::empty());
        assert(l =~= Seq::<HeapLeaf>::empty());
        l.to_multiset_ensures();
        strip_sentinels(l).to_multiset_ensures();
        vstd::multiset::lemma_multiset_empty_len(l.to_multiset());
        vstd::multiset::lemma_multiset_empty_len(strip_sentinels(l).to_multiset());
    } else {
        let d = l.drop_last();
        let a = l.last();
        assert(d.push(a) =~= l);
        lemma_strip_count(d, x);
        d.to_multiset_ensures();
        strip_sentinels(d).to_multiset_ensures();
        assert(l.to_multiset() =~= d.to_multiset().insert(a));
        if addr_of(a) != 0 {
            assert(strip_sentinels(l).to_multiset() =~= strip_sentinels(d).to_multiset().insert(a));
        }
    }
}

/// A leaf of a list is at some index.
proof fn lemma_contains_index(l: Seq<HeapLeaf>, x: HeapLeaf)
    requires
        l.contains(x),
    ensures
        exists|i: int| 0 <= i < l.len() && l[i] == x,
{
}

/// **The heap root does not depend on the order of the leaves**: a
/// rearrangement of a representable leaf list is representable and commits
/// the same chain, hence the same root at every depth.
pub proof fn lemma_root_permutation_invariant<D: HeapDigest>(l1: Seq<HeapLeaf>, l2: Seq<HeapLeaf>, depth: nat)
    requires
        chain_representable(l1),
        l1.to_multiset() == l2.to_multiset(),
    ensures
        chain_representable(l2),
        heap_chain(l1) == heap_chain(l2),
        heap_root_of::<D>(heap_chain(l1), depth) == heap_root_of::<D>(heap_chain(l2), depth),
{
    broadcast use vstd::multiset::group_multiset_axioms;
    l1.to_multiset_ensures();
    l2.to_multiset_ensures();
    let s1 = strip_sentinels(l1);
    let s2 = strip_sentinels(l2);
    s1.to_multiset_ensures();
    s2.to_multiset_ensures();
    assert forall|x: HeapLeaf| l2.contains(x) <==> l1.contains(x) by {
        assert(l2.contains(x) <==> l2.to_multiset().count(x) > 0);
        assert(l1.contains(x) <==> l1.to_multiset().count(x) > 0);
    }
    assert forall|x: HeapLeaf| s2.to_multiset().count(x) == s1.to_multiset().count(x) by {
        lemma_strip_count(l1, x);
        lemma_strip_count(l2, x);
    }
    assert(crate::heap_leaf::no_live_sentinel(l2)) by {
        assert forall|i: int| 0 <= i < l2.len() implies !crate::heap_leaf::is_live_sentinel(#[trigger] l2[i]) by {
            assert(l2.contains(l2[i]));
            lemma_contains_index(l1, l2[i]);
        }
    }
    assert(crate::heap_leaf::addrs_below_max(l2)) by {
        assert forall|i: int| 0 <= i < l2.len() implies addr_of(#[trigger] l2[i]) < SENTINEL_MAX_VALUE by {
            assert(l2.contains(l2[i]));
            lemma_contains_index(l1, l2[i]);
        }
    }
    assert(crate::heap_leaf::all_distinct_addrs(s2)) by {
        assert(s1.no_duplicates()) by {
            assert forall|i: int, j: int| 0 <= i < s1.len() && 0 <= j < s1.len() && i != j implies s1[i] != s1[j] by {
                if i < j {
                    assert(addr_of(s1[i]) != addr_of(s1[j]));
                } else {
                    assert(addr_of(s1[j]) != addr_of(s1[i]));
                }
            }
        }
        s1.lemma_multiset_has_no_duplicates();
        assert forall|x: HeapLeaf| s2.to_multiset().contains(x) implies s2.to_multiset().count(x) == 1 by {
            assert(s1.to_multiset().contains(x));
        }
        s2.lemma_multiset_has_no_duplicates_conv();
        assert forall|i: int, j: int| 0 <= i < j < s2.len() implies addr_of(s2[i]) != addr_of(s2[j]) by {
            if addr_of(s2[i]) == addr_of(s2[j]) {
                assert(s2[i] != s2[j]);
                assert(s2.contains(s2[i]) && s2.contains(s2[j]));
                assert(s2.to_multiset().count(s2[i]) > 0 && s2.to_multiset().count(s2[j]) > 0);
                assert(s1.contains(s2[i]) && s1.contains(s2[j]));
                lemma_contains_index(s1, s2[i]);
                lemma_contains_index(s1, s2[j]);
                let a = choose|a: int| 0 <= a < s1.len() && s1[a] == s2[i];
                let b = choose|b: int| 0 <= b < s1.len() && s1[b] == s2[j];
                assert(a != b);
                if a < b {
                    assert(addr_of(s1[a]) != addr_of(s1[b]));
                } else {
                    assert(addr_of(s1[b]) != addr_of(s1[a]));
                }
            }
        }
    }
    assert(same_entries(l1, l2)) by {
        crate::heap_leaf::lemma_strip_sentinels(l1);
        crate::heap_leaf::lemma_strip_sentinels(l2);
        crate::heap_leaf::lemma_proj_seq(s1);
        crate::heap_leaf::lemma_proj_seq(s2);
        assert forall|p: (BabyBear, BabyBear)| entries_proj(l1).contains(p) <==> entries_proj(l2).contains(p) by {
            if entries_proj(l1).contains(p) {
                let k = choose|k: int| 0 <= k < s1.len() && proj(#[trigger] s1[k]) == p;
                assert(s1.contains(s1[k]));
                assert(s2.contains(s1[k]));
                lemma_contains_index(s2, s1[k]);
                let k2 = choose|k2: int| 0 <= k2 < s2.len() && s2[k2] == s1[k];
                assert(proj(s2[k2]) == p);
            }
            if entries_proj(l2).contains(p) {
                let k = choose|k: int| 0 <= k < s2.len() && proj(#[trigger] s2[k]) == p;
                assert(s2.contains(s2[k]));
                assert(s1.contains(s2[k]));
                lemma_contains_index(s1, s2[k]);
                let k1 = choose|k1: int| 0 <= k1 < s1.len() && s1[k1] == s2[k];
                assert(proj(s1[k1]) == p);
            }
        }
    }
    crate::heap_leaf::lemma_heap_chain_same_entries(l1, l2);
}

/// **The eight-felt update witness**: for a write at a real address of a
/// committed chain, the witness's new leaf is the old leaf with the new
/// value (its pointer kept), the old leaf recomposes along the path to the
/// old root, and the new root is the root of the rebuild from any
/// representable list carrying the written entries.
pub proof fn lemma_update_witness8_law(
    c: Seq<HeapLeaf>,
    depth: nat,
    leaf: HeapLeaf,
    w: crate::heap_tree::HeapUpdateWitness8,
    l: Seq<HeapLeaf>,
)
    requires
        is_heap_chain(c),
        addr_present(c, leaf.addr),
        addr_position(c, leaf.addr) >= 1,
        c.len() <= pow2(depth),
        crate::heap_tree::update_witness8_spec(c, depth, leaf, w),
        chain_representable(l),
        same_entries(
            l,
            c.update(
                addr_position(c, leaf.addr),
                written_leaf(c[addr_position(c, leaf.addr)], leaf.value),
            ).drop_first(),
        ),
    ensures
        w.new_leaf == (HeapLeaf { addr: leaf.addr, value: leaf.value, next_addr: w.old_leaf.next_addr }),
        w.old_root == crate::merkle::recompose_path(
            <[BabyBear; 8]>::spec_leaf(w.old_leaf),
            w.siblings@,
            w.directions@,
            crate::heap_tree::node_fn::<[BabyBear; 8]>(),
        ),
        w.new_root == heap_root_of::<[BabyBear; 8]>(heap_chain(l), depth),
{
    let pos = addr_position(c, leaf.addr);
    assert(0 <= pos < c.len() && c[pos].addr == leaf.addr);
    crate::heap_tree::lemma_update_root::<[BabyBear; 8]>(c, depth, pos, c[pos]);
    assert(c.update(pos, c[pos]) =~= c);
    lemma_write_matches_rebuild(c, pos, leaf.value, l);
}

/// **What a tree commits**: the chain of a representable leaf list is
/// headed by the MIN sentinel with value `0`, strictly sorted by address,
/// each leaf pointing at its successor's address and the last at MAX, and
/// its real `(addr, value)` entries are exactly those of the list.
pub proof fn lemma_committed_chain(l: Seq<HeapLeaf>)
    requires
        chain_representable(l),
    ensures
        is_heap_chain(heap_chain(l)),
        forall|p: (BabyBear, BabyBear)| #[trigger] proj_seq(heap_chain(l).drop_first()).contains(p) <==> entries_proj(l).contains(p),
{
    crate::heap_leaf::lemma_heap_chain_is_chain(l);
    lemma_chain_tail_entries(l);
}

} // verus!
