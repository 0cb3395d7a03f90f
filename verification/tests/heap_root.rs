use heap_circuit::field::BabyBear;
use heap_circuit::heap_leaf::{
    assert_addr_unique, min_sentinel_leaf, relink_next_addrs, sentinel_max, sentinel_min,
    strip_incoming_genesis_sentinel, HeapLeaf, HEAP_TREE_DEPTH,
};
use heap_circuit::heap_tree::{
    compute_heap_root, empty_heap_root, fold_append_order_8, heap_addr, recompose_membership_8,
    CanonicalHeapTree, CanonicalHeapTree8,
};
use heap_circuit::poseidon2::hash_fact;

fn entry(coll: u32, key: u32, value: u32) -> HeapLeaf {
    HeapLeaf::entry(heap_addr(BabyBear::new(coll), BabyBear::new(key)), BabyBear::new(value))
}

#[test]
fn empty_root_deterministic_and_nonzero() {
    let a = empty_heap_root();
    let b = empty_heap_root();
    assert_eq!(a, b, "empty root is deterministic");
    assert_ne!(a, BabyBear::zero(), "empty root is NOT the ZERO default");
}

#[test]
fn write_moves_root() {
    let empty = empty_heap_root();
    let with_one = compute_heap_root(vec![entry(3, 4, 42)]);
    assert_ne!(empty, with_one, "a written entry must move the root");
}

#[test]
fn root_is_input_order_independent() {
    let a = compute_heap_root(vec![entry(1, 1, 10), entry(1, 2, 20), entry(2, 1, 30)]);
    let b = compute_heap_root(vec![entry(2, 1, 30), entry(1, 1, 10), entry(1, 2, 20)]);
    assert_eq!(a, b, "sorted tree: input order must not change the root");
}

#[test]
fn tampered_value_moves_root() {
    let a = compute_heap_root(vec![entry(3, 4, 42)]);
    let b = compute_heap_root(vec![entry(3, 4, 99)]);
    assert_ne!(a, b, "the written value must bind the root");
}

#[test]
fn tampered_addr_moves_root() {
    let base = compute_heap_root(vec![entry(3, 4, 42)]);
    let other_key = compute_heap_root(vec![entry(3, 5, 42)]);
    let other_coll = compute_heap_root(vec![entry(5, 4, 42)]);
    assert_ne!(base, other_key, "the key must bind the root");
    assert_ne!(base, other_coll, "the collection must bind the root");
}

#[test]
fn update_witness_recomputes_post_root() {
    let tree = CanonicalHeapTree::new(
        vec![entry(1, 1, 10), entry(1, 2, 20), entry(2, 1, 30)],
        HEAP_TREE_DEPTH,
    );
    let new_leaf = HeapLeaf::entry(heap_addr(BabyBear::new(1), BabyBear::new(2)), BabyBear::new(77));
    let w = tree.update_witness(new_leaf).expect("addr is present");
    assert_eq!(w.old_leaf.value, BabyBear::new(20));
    assert_eq!(w.old_root, tree.root());
    let rebuilt = compute_heap_root(vec![entry(1, 1, 10), entry(1, 2, 77), entry(2, 1, 30)]);
    assert_eq!(w.new_root, rebuilt, "path-recomputed post-root must equal the rebuilt tree root");
    let absent = HeapLeaf::entry(heap_addr(BabyBear::new(9), BabyBear::new(9)), BabyBear::new(1));
    assert!(tree.update_witness(absent).is_none());
}

#[test]
fn insert_witness_recomputes_post_root() {
    let tree = CanonicalHeapTree::new(vec![entry(1, 1, 10), entry(1, 3, 30)], HEAP_TREE_DEPTH);
    let new_leaf = HeapLeaf::entry(heap_addr(BabyBear::new(1), BabyBear::new(2)), BabyBear::new(20));
    let w = tree.insert_witness(new_leaf).expect("addr is fresh");
    assert_eq!(w.old_root, tree.root());
    let rebuilt = compute_heap_root(vec![entry(1, 1, 10), entry(1, 2, 20), entry(1, 3, 30)]);
    assert_eq!(w.new_root, rebuilt, "insert-witness new root must equal the rebuilt tree root");
    let mut cur = w.new_leaf.digest();
    for level in 0..HEAP_TREE_DEPTH {
        cur = if w.directions[level] == 0 {
            hash_fact(cur, &[w.siblings[level]])
        } else {
            hash_fact(w.siblings[level], &[cur])
        };
    }
    assert_eq!(cur, w.new_root, "witness path must open to the new root");
    assert!(tree.insert_witness(entry(1, 1, 99)).is_none());
}

#[test]
fn ascending_append_inserts_and_still_refuses_invalid_keys() {
    let raw = |a: u32, v: u32| HeapLeaf::entry(BabyBear::new(a), BabyBear::new(v));
    const CHAIN: [(u32, u32); 4] = [(2, 20), (4, 40), (6, 60), (9, 90)];

    let mut acc: Vec<HeapLeaf> = Vec::new();
    for (i, &(a, v)) in CHAIN.iter().enumerate() {
        let tree = CanonicalHeapTree::new(acc.clone(), HEAP_TREE_DEPTH);
        let w = tree
            .insert_witness(raw(a, v))
            .unwrap_or_else(|| panic!("ascending append #{i} (key {a}) must insert"));
        assert_eq!(w.old_root, tree.root(), "append #{i} opens the pre-root");
        acc.push(raw(a, v));
        assert_eq!(
            w.new_root,
            compute_heap_root(acc.clone()),
            "append #{i} post-root must equal the rebuilt tree root"
        );
    }

    let mut acc8: Vec<HeapLeaf> = Vec::new();
    for (i, &(a, v)) in CHAIN.iter().enumerate() {
        let tree = CanonicalHeapTree8::new(acc8.clone(), HEAP_TREE_DEPTH);
        let w = tree
            .insert_witness(raw(a, v))
            .unwrap_or_else(|| panic!("8-felt ascending append #{i} (key {a}) must insert"));
        assert_eq!(w.old_root, tree.root8().limbs(), "8-felt append #{i} opens the pre-root");
        acc8.push(raw(a, v));
        assert_eq!(
            w.new_root,
            CanonicalHeapTree8::new(acc8.clone(), HEAP_TREE_DEPTH).root8().limbs(),
            "8-felt append #{i} post-root must equal the rebuilt tree root"
        );
        assert_eq!(
            recompose_membership_8(w.new_leaf.digest8(), &w.siblings, &w.directions),
            w.new_root,
            "8-felt append #{i} witness path must open to the new root"
        );
        assert_eq!(
            w.new_leaf.next_addr,
            sentinel_max(),
            "the largest leaf's pointer IS the terminal MAX sentinel"
        );
    }

    let tree = CanonicalHeapTree::new(acc.clone(), HEAP_TREE_DEPTH);
    let tree8 = CanonicalHeapTree8::new(acc8.clone(), HEAP_TREE_DEPTH);
    for (why, key) in [
        ("the MAX sentinel itself", sentinel_max()),
        ("the MIN sentinel itself", sentinel_min()),
        ("a duplicate of an interior key", BabyBear::new(4)),
        ("a duplicate of the LARGEST present key", BabyBear::new(9)),
    ] {
        let leaf = HeapLeaf::entry(key, BabyBear::new(1));
        assert!(
            tree.insert_witness(leaf).is_none(),
            "1-felt: {why} ({}) must still be refused",
            key.as_u32()
        );
        assert!(
            tree8.insert_witness(leaf).is_none(),
            "8-felt: {why} ({}) must still be refused",
            key.as_u32()
        );
    }
}

#[test]
fn apply_value_update_matches_rebuild() {
    let base = vec![entry(1, 1, 10), entry(1, 2, 20), entry(2, 1, 30), entry(5, 9, 7)];
    let mut tree = CanonicalHeapTree::new(base, HEAP_TREE_DEPTH);

    let addr = heap_addr(BabyBear::new(1), BabyBear::new(2));
    let root = tree.apply_value_update(addr, BabyBear::new(77)).unwrap();
    let rebuilt = compute_heap_root(vec![entry(1, 1, 10), entry(1, 2, 77), entry(2, 1, 30), entry(5, 9, 7)]);
    assert_eq!(root, rebuilt, "path-recomputed root == rebuilt tree root");
    assert_eq!(tree.root(), rebuilt, "the tree's own root is updated in place");

    let addr2 = heap_addr(BabyBear::new(2), BabyBear::new(1));
    let root2 = tree.apply_value_update(addr2, BabyBear::new(88)).unwrap();
    let rebuilt2 = compute_heap_root(vec![entry(1, 1, 10), entry(1, 2, 77), entry(2, 1, 88), entry(5, 9, 7)]);
    assert_eq!(root2, rebuilt2, "chained update stays byte-identical to rebuild");

    assert!(tree
        .apply_value_update(heap_addr(BabyBear::new(9), BabyBear::new(9)), BabyBear::new(1))
        .is_none());
}

struct Rng(u64);
impl Rng {
    fn next_u64(&mut self) -> u64 {
        let mut x = self.0;
        x ^= x << 13;
        x ^= x >> 7;
        x ^= x << 17;
        self.0 = x;
        x
    }
    fn below(&mut self, n: u32) -> u32 {
        (self.next_u64() % n as u64) as u32
    }
}

fn leaves_of(vals: &std::collections::BTreeMap<(u32, u32), u32>) -> Vec<HeapLeaf> {
    vals.iter().map(|(&(c, k), &v)| entry(c, k, v)).collect()
}

#[test]
fn apply_value_update_random_chain_matches_rebuild() {
    const DEPTH: usize = 10;
    let mut rng = Rng(0x1CE_BEEF_1234_0001u64);
    let keys: Vec<(u32, u32)> = (0..25).map(|i| (i % 5, i / 5)).collect();
    let mut values: std::collections::BTreeMap<(u32, u32), u32> = keys.iter().map(|&k| (k, 1)).collect();
    let mut tree = CanonicalHeapTree::new(leaves_of(&values), DEPTH);
    for _ in 0..500 {
        let (c, k) = keys[(rng.below(keys.len() as u32)) as usize];
        let v = rng.next_u64() as u32;
        *values.get_mut(&(c, k)).unwrap() = v;
        let addr = heap_addr(BabyBear::new(c), BabyBear::new(k));
        let got = tree.apply_value_update(addr, BabyBear::new(v)).unwrap();
        let rebuilt = CanonicalHeapTree::new(leaves_of(&values), DEPTH).root();
        assert_eq!(got, rebuilt, "incremental root diverged from rebuild");
        assert_eq!(tree.root(), rebuilt);
    }
}

#[test]
fn apply_value_update8_random_chain_matches_rebuild() {
    const DEPTH: usize = 10;
    let mut rng = Rng(0x1CE_BEEF_1234_0008u64);
    let keys: Vec<(u32, u32)> = (0..25).map(|i| (i % 5, i / 5)).collect();
    let mut values: std::collections::BTreeMap<(u32, u32), u32> = keys.iter().map(|&k| (k, 1)).collect();
    let mut tree = CanonicalHeapTree8::new(leaves_of(&values), DEPTH);
    for _ in 0..500 {
        let (c, k) = keys[(rng.below(keys.len() as u32)) as usize];
        let v = rng.next_u64() as u32;
        *values.get_mut(&(c, k)).unwrap() = v;
        let addr = heap_addr(BabyBear::new(c), BabyBear::new(k));
        let got = tree.apply_value_update(addr, BabyBear::new(v)).unwrap();
        let rebuilt = CanonicalHeapTree8::new(leaves_of(&values), DEPTH).root8().limbs();
        assert_eq!(got.limbs(), rebuilt, "incremental 8-felt root diverged from rebuild");
        assert_eq!(tree.root8().limbs(), rebuilt);
    }
    assert!(tree
        .apply_value_update(heap_addr(BabyBear::new(9), BabyBear::new(9)), BabyBear::new(1))
        .is_none());
}

/// The dense build: the sorted, relinked leaf list padded with zeros to
/// `2^depth` and every level folded.
fn dense_build(leaves: Vec<HeapLeaf>, depth: usize) -> (Vec<HeapLeaf>, Vec<Vec<BabyBear>>) {
    let mut leaves = leaves;
    let _ = strip_incoming_genesis_sentinel(&mut leaves, "dense_build");
    leaves.push(min_sentinel_leaf());
    leaves.sort_by_key(|l| l.addr.as_u32());
    let _ = assert_addr_unique(&leaves, "dense_build");
    let _ = relink_next_addrs(&mut leaves);
    let capacity = 1usize << depth;
    assert!(leaves.len() <= capacity);
    let mut leaf_digests: Vec<BabyBear> = leaves.iter().map(HeapLeaf::digest).collect();
    leaf_digests.resize(capacity, BabyBear::zero());
    let mut levels = vec![leaf_digests];
    for _ in 0..depth {
        let prev = levels.last().unwrap();
        let mut next = Vec::with_capacity(prev.len() / 2);
        for chunk in prev.chunks(2) {
            next.push(hash_fact(chunk[0], &[chunk[1]]));
        }
        levels.push(next);
    }
    (leaves, levels)
}

/// `n` random leaves at pairwise-distinct addresses.
fn rand_distinct_entries(rng: &mut Rng, n: usize) -> Vec<HeapLeaf> {
    let mut addrs: Vec<BabyBear> = Vec::with_capacity(n);
    let mut out: Vec<HeapLeaf> = Vec::with_capacity(n);
    let mut guard = 0usize;
    while out.len() < n {
        guard += 1;
        assert!(guard < 100_000, "distinct-address draw failed to make progress");
        let leaf = entry(rng.below(64), rng.below(64), rng.next_u64() as u32);
        if addrs.contains(&leaf.addr) {
            continue;
        }
        addrs.push(leaf.addr);
        out.push(leaf);
    }
    out
}

/// The sparse fold against the dense build on 1,000 random heaps: the same
/// root, the same sorted leaves and the same membership path for every leaf.
#[test]
fn sparse_matches_dense_root_and_membership_sampled() {
    const CASES: usize = 1_000;
    const DEPTH: usize = 8;
    let mut rng = Rng(0x4EAB_F00D_1234_0001);
    let mut mismatches = 0usize;
    let mut total_leaves = 0usize;
    for _ in 0..CASES {
        let n = rng.below(60) as usize;
        let leaves: Vec<HeapLeaf> = rand_distinct_entries(&mut rng, n);
        let sparse = CanonicalHeapTree::new(leaves.clone(), DEPTH);
        let (oracle_leaves, oracle_levels) = dense_build(leaves, DEPTH);

        if sparse.root() != oracle_levels[DEPTH][0] {
            mismatches += 1;
            continue;
        }
        assert_eq!(sparse.sorted_leaves(), oracle_leaves.as_slice());
        for pos in 0..oracle_leaves.len() {
            total_leaves += 1;
            let (s_sib, s_dir) = sparse.prove_membership(pos).unwrap();
            let mut d_sib = Vec::with_capacity(DEPTH);
            let mut d_dir = Vec::with_capacity(DEPTH);
            let mut idx = pos;
            for level in 0..DEPTH {
                d_sib.push(oracle_levels[level][idx ^ 1]);
                d_dir.push((idx & 1) as u8);
                idx >>= 1;
            }
            if s_sib != d_sib || s_dir != d_dir {
                mismatches += 1;
                break;
            }
        }
    }
    assert_eq!(
        mismatches, 0,
        "sparse heap-tree fold must be byte-identical to the dense build over {CASES} cases ({total_leaves} membership paths checked)"
    );
}

#[test]
fn sparse_matches_dense_at_depth_16() {
    let cases: Vec<Vec<HeapLeaf>> = vec![
        vec![],
        vec![entry(3, 4, 42)],
        vec![entry(1, 1, 10), entry(1, 2, 20), entry(2, 1, 30)],
        (0..50).map(|i| entry(i, i + 1, i.wrapping_mul(11))).collect(),
    ];
    for leaves in cases {
        let sparse = CanonicalHeapTree::new(leaves.clone(), HEAP_TREE_DEPTH);
        let (oracle_leaves, oracle_levels) = dense_build(leaves, HEAP_TREE_DEPTH);
        assert_eq!(sparse.root(), oracle_levels[HEAP_TREE_DEPTH][0], "depth-16 root");
        assert_eq!(sparse.sorted_leaves(), oracle_leaves.as_slice());
        for pos in 0..oracle_leaves.len() {
            let (s_sib, s_dir) = sparse.prove_membership(pos).unwrap();
            let mut idx = pos;
            for level in 0..HEAP_TREE_DEPTH {
                assert_eq!(s_sib[level], oracle_levels[level][idx ^ 1], "sibling@{level} pos {pos}");
                assert_eq!(s_dir[level], (idx & 1) as u8);
                idx >>= 1;
            }
        }
    }
}

/// A leaf at a raw address, unlinked.
fn raw(addr: u32, value: u32) -> HeapLeaf {
    HeapLeaf::entry(BabyBear::new(addr), BabyBear::new(value))
}

/// The list form of the indexed-Merkle-tree insert: splice after the first
/// bracketing low leaf; identity when no leaf brackets the key.
fn imt_insert_oracle(chain: &[HeapLeaf], k: BabyBear, v: BabyBear) -> Vec<HeapLeaf> {
    let ku = k.as_u32();
    let mut out: Vec<HeapLeaf> = Vec::with_capacity(chain.len() + 1);
    for (i, &l) in chain.iter().enumerate() {
        if l.addr.as_u32() < ku && ku < l.next_addr.as_u32() {
            out.push(HeapLeaf { next_addr: k, ..l });
            out.push(HeapLeaf { addr: k, value: v, next_addr: l.next_addr });
            out.extend_from_slice(&chain[i + 1..]);
            return out;
        }
        out.push(l);
    }
    out
}

/// A strictly increasing, well-linked chain ending at the MAX sentinel.
fn is_imt_sorted(chain: &[HeapLeaf]) -> bool {
    if chain.is_empty() {
        return false;
    }
    for i in 0..chain.len() {
        if chain[i].addr.as_u32() >= chain[i].next_addr.as_u32() {
            return false;
        }
        let expected_next = if i + 1 < chain.len() { chain[i + 1].addr } else { sentinel_max() };
        if chain[i].next_addr != expected_next {
            return false;
        }
    }
    true
}

#[test]
fn aafi_matches_imt_insert_genesis_first() {
    let tree = CanonicalHeapTree8::new(vec![], HEAP_TREE_DEPTH);
    let chain_before = tree.sorted_leaves().to_vec();
    assert_eq!(chain_before, vec![min_sentinel_leaf()], "genesis = [MIN → MAX]");
    assert!(is_imt_sorted(&chain_before));

    let k = BabyBear::new(40);
    let v = BabyBear::new(4);
    let w = tree.insert_witness_aafi(HeapLeaf::entry(k, v)).expect("in-gap fresh key");

    assert_eq!(w.free_index, 1, "append after the single sentinel");
    assert_eq!(w.low_position, 0);
    assert_eq!(w.low_leaf_old, min_sentinel_leaf());
    assert_eq!(w.low_leaf_new.next_addr, k, "low pointer updated → k");
    assert_eq!(
        w.new_leaf,
        HeapLeaf { addr: k, value: v, next_addr: sentinel_max() },
        "appended (k, v, low_oldNext=MAX)"
    );
    assert_eq!(w.append_order_after[0], w.low_leaf_new);
    assert_eq!(w.append_order_after[1], w.new_leaf);

    let walked = w.linked_chain_sorted().expect("well-linked");
    let oracle = imt_insert_oracle(&chain_before, k, v);
    assert_eq!(walked, oracle, "AAFI linked chain must equal imtInsert");
    assert!(is_imt_sorted(&walked), "imtInsert_preserves: chain stays sorted");
}

#[test]
fn aafi_matches_imt_insert_midchain() {
    let tree = CanonicalHeapTree8::new(vec![raw(10, 1), raw(30, 3), raw(50, 5)], HEAP_TREE_DEPTH);
    let chain_before = tree.sorted_leaves().to_vec();
    let k = BabyBear::new(20);
    let v = BabyBear::new(2);
    let w = tree.insert_witness_aafi(HeapLeaf::entry(k, v)).expect("fresh in-gap key");

    assert_eq!(w.free_index, chain_before.len(), "append at the physical end");
    assert_ne!(w.low_leaf_old, min_sentinel_leaf(), "genuinely mid-chain");
    assert_eq!(w.low_leaf_old.addr, BabyBear::new(10));
    assert!(
        w.low_leaf_old.addr.as_u32() < k.as_u32() && k.as_u32() < w.low_leaf_old.next_addr.as_u32(),
        "pointer bracket low.addr < k < low.next_addr"
    );
    assert_eq!(w.low_leaf_new.next_addr, k);
    assert_eq!(w.new_leaf.addr, k);
    assert_eq!(w.new_leaf.next_addr, w.low_leaf_old.next_addr, "new leaf inherits low_oldNext");

    for (i, &l) in chain_before.iter().enumerate() {
        if i == w.low_position {
            assert_eq!(w.append_order_after[i], w.low_leaf_new);
        } else {
            assert_eq!(w.append_order_after[i], l, "position {i} must not shift");
        }
    }

    let walked = w.linked_chain_sorted().expect("well-linked");
    let oracle = imt_insert_oracle(&chain_before, k, v);
    assert_eq!(walked, oracle, "AAFI linked chain must equal imtInsert");
    assert!(is_imt_sorted(&walked));
    assert_ne!(w.new_root, w.old_root, "the AAFI insert moves the AAFI root");
}

#[test]
fn aafi_no_witness_for_out_of_gap_keys() {
    let tree = CanonicalHeapTree8::new(vec![raw(10, 1), raw(20, 2), raw(30, 3)], HEAP_TREE_DEPTH);
    let chain = tree.sorted_leaves().to_vec();

    let present = BabyBear::new(20);
    assert_eq!(
        imt_insert_oracle(&chain, present, BabyBear::new(99)),
        chain,
        "imtInsert on a present key is identity (no new leaf)"
    );
    assert!(
        tree.insert_witness_aafi(raw(20, 99)).is_none(),
        "present key: no valid AAFI witness (§3 double-spend refused)"
    );

    assert!(tree.insert_witness_aafi(HeapLeaf::entry(sentinel_min(), BabyBear::new(1))).is_none());
    assert!(tree.insert_witness_aafi(HeapLeaf::entry(sentinel_max(), BabyBear::new(1))).is_none());

    assert!(
        tree.insert_witness_aafi(raw(1000, 7)).is_some(),
        "a fresh in-range key beyond the last leaf has a witness"
    );
}

#[test]
fn aafi_liveness_honest_chain_stays_sorted() {
    let inserts = [(40u32, 4u32), (20, 2), (60, 6), (30, 3), (50, 5)];
    let mut set: Vec<HeapLeaf> = Vec::new();
    let mut oracle_chain = CanonicalHeapTree8::new(vec![], HEAP_TREE_DEPTH).sorted_leaves().to_vec();

    for &(a, v) in &inserts {
        let tree = CanonicalHeapTree8::new(set.clone(), HEAP_TREE_DEPTH);
        let base_chain = tree.sorted_leaves().to_vec();
        assert_eq!(base_chain, oracle_chain, "the sorted-compacted chain equals the running imtInsert chain");

        let ka = BabyBear::new(a);
        let vv = BabyBear::new(v);
        let w = tree
            .insert_witness_aafi(HeapLeaf::entry(ka, vv))
            .expect("honest in-gap insert has a witness");
        assert_eq!(w.new_leaf.addr, ka, "append + ");
        assert_eq!(w.low_leaf_new.next_addr, ka, "low-update");

        let walked = w.linked_chain_sorted().expect("well-linked");
        let oracle_next = imt_insert_oracle(&oracle_chain, ka, vv);
        assert_eq!(walked, oracle_next, "AAFI chain matches imtInsert at each step");
        assert!(is_imt_sorted(&walked), "chain stays ImtSorted");
        assert!(walked.iter().any(|l| l.addr == ka), "the key is present-after");
        assert_eq!(walked.len(), oracle_chain.len() + 1, "spine grows by exactly one (the fresh key)");

        oracle_chain = oracle_next;
        set.push(HeapLeaf::entry(ka, vv));
    }
}

#[test]
fn aafi_is_non_mutating_and_additive() {
    let tree = CanonicalHeapTree8::new(vec![raw(10, 1), raw(20, 2)], HEAP_TREE_DEPTH);
    let root_before = tree.root8().limbs();
    let sorted_before = tree.sorted_leaves().to_vec();
    let nfi = tree.next_free_index();

    let w = tree.insert_witness_aafi(raw(15, 9)).expect("fresh in-gap");

    assert_eq!(tree.root8().limbs(), root_before, "root8 unchanged by AAFI witness");
    assert_eq!(tree.sorted_leaves(), sorted_before.as_slice());
    assert_eq!(tree.next_free_index(), nfi);
    assert_eq!(
        w.new_root,
        fold_append_order_8(&w.append_order_after, HEAP_TREE_DEPTH),
        "AAFI new_root is the append-order fold"
    );
    assert_eq!(w.old_root, root_before, "old_root == sorted-compacted root");
}

#[test]
fn aafi_new_leaf_membership_folds_to_new_root() {
    let inserts = [(15u32, 9u32), (25, 3), (5, 1), (40, 7), (33, 2)];
    let mut set: Vec<HeapLeaf> = vec![raw(10, 1), raw(20, 2), raw(30, 4)];
    for &(a, v) in &inserts {
        let tree = CanonicalHeapTree8::new(set.clone(), HEAP_TREE_DEPTH);
        let w = tree.insert_witness_aafi(raw(a, v)).expect("fresh in-gap insert has a witness");
        let (siblings, directions) = w.new_leaf_membership(HEAP_TREE_DEPTH);
        assert_eq!(siblings.len(), HEAP_TREE_DEPTH);
        assert_eq!(directions.len(), HEAP_TREE_DEPTH);
        let recomposed = recompose_membership_8(w.new_leaf.digest8(), &siblings, &directions);
        assert_eq!(
            recomposed, w.new_root,
            "appended leaf over PATH2 membership must fold to the AAFI new_root (key {a})"
        );
        set.push(raw(a, v));
    }
}
