use heap_circuit::field::{BabyBear, BABYBEAR_P};
use heap_circuit::heap_leaf::{HeapLeaf, HeapRootError, HEAP_TREE_DEPTH};
use heap_circuit::heap_tree::{
    assert_pad_free, assert_pad_free_tail, compute_heap_root, heap_addr, CanonicalHeapTree, CanonicalHeapTree8,
};
use heap_circuit::lean_descriptor_air::{
    parse_descriptor, parse_vm_descriptor, HashInput, LeanConstraint, LeanDescriptor, LeanExpr, RangeSpec,
    VmConstraint, VmRow,
};
use heap_circuit::merkle_air::{membership_public_inputs, MembershipP3Error};
use heap_circuit::membership_descriptor_4ary::{create_test_witness, membership_root_4ary, Digest8};
use heap_circuit::lean_descriptor_air::{build_trace, EffectVmDescriptorAir, JsonCursor};
use heap_circuit::merkle_types::{create_test_witness as merkle_test_witness, MerkleAir};
use heap_circuit::mina_fixture_emit::{arr, nums};
use heap_circuit::poseidon2::{chip_absorb_all_lanes, hash_fact, hash_many, hash_many_8};

fn entry(coll: u32, key: u32, value: u32) -> HeapLeaf {
    HeapLeaf::entry(heap_addr(BabyBear::new(coll), BabyBear::new(key)), BabyBear::new(value))
}

fn d8(base: u32) -> Digest8 {
    core::array::from_fn(|k| BabyBear::new(base + k as u32))
}

// ---- the hash ----

#[test]
fn hash_moves_its_input() {
    let x = BabyBear::new(12345);
    assert_ne!(hash_many(&[x]), x);
    assert_ne!(hash_fact(x, &[x]), x);
    assert_ne!(hash_many(&[x]), hash_many(&[x, BabyBear::zero()]), "the arity tag separates lengths");
}

#[test]
fn field_reduces_mod_p() {
    assert_eq!(BabyBear::new(BABYBEAR_P), BabyBear::zero());
    assert_eq!(BabyBear::new(BABYBEAR_P - 1) + BabyBear::one(), BabyBear::zero());
    assert_eq!(BabyBear::zero() - BabyBear::one(), BabyBear::new(BABYBEAR_P - 1));
    assert_eq!(BabyBear::new(3) * BabyBear::new(5), BabyBear::new(15));
}

// ---- the heap tree: refusals ----

#[test]
fn live_sentinel_is_refused() {
    let r = CanonicalHeapTree::try_new(vec![HeapLeaf::entry(BabyBear::zero(), BabyBear::new(5))], HEAP_TREE_DEPTH);
    assert!(matches!(r, Err(HeapRootError::LiveSentinel { index: 0, value: 5 })));
}

#[test]
fn caller_sentinel_is_idempotent() {
    let with = compute_heap_root(vec![HeapLeaf::entry(BabyBear::zero(), BabyBear::zero()), entry(1, 1, 1)]);
    let without = compute_heap_root(vec![entry(1, 1, 1)]);
    assert_eq!(with, without);
}

#[test]
fn duplicate_address_is_refused() {
    let r = CanonicalHeapTree::try_new(vec![entry(1, 1, 1), entry(1, 1, 2)], HEAP_TREE_DEPTH);
    assert!(matches!(r, Err(HeapRootError::DuplicateAddress { .. })));
    let r8 = CanonicalHeapTree8::try_new(vec![entry(1, 1, 1), entry(1, 1, 2)], HEAP_TREE_DEPTH);
    assert!(matches!(r8, Err(HeapRootError::DuplicateAddress { .. })));
}

#[test]
fn a_leaf_at_max_is_not_well_linked() {
    let r = CanonicalHeapTree::try_new(
        vec![HeapLeaf::entry(BabyBear::new(BABYBEAR_P - 1), BabyBear::new(1))],
        HEAP_TREE_DEPTH,
    );
    assert!(matches!(r, Err(HeapRootError::NotWellLinked { .. })));
}

#[test]
fn capacity_is_enforced() {
    let r = CanonicalHeapTree::try_new(vec![entry(1, 1, 1), entry(1, 2, 2)], 1);
    assert!(matches!(r, Err(HeapRootError::CapacityExceeded { leaves: 3 })));
    assert!(CanonicalHeapTree::try_new(vec![entry(1, 1, 1)], 1).is_ok());
}

#[test]
fn guarded_insert_reports_a_full_tree() {
    let tree = CanonicalHeapTree::new(vec![entry(1, 1, 1)], 1);
    let fresh = entry(1, 2, 2);
    assert!(matches!(tree.try_insert_witness(fresh), Err(HeapRootError::CapacityExceeded { leaves: 3 })));
    assert!(matches!(tree.try_insert_witness(entry(1, 1, 5)), Ok(None)));
    let tree8 = CanonicalHeapTree8::new(vec![entry(1, 1, 1)], 1);
    assert!(matches!(tree8.try_insert_witness(fresh), Err(HeapRootError::CapacityExceeded { leaves: 3 })));
}

#[test]
fn guarded_insert_matches_the_plain_insert() {
    let tree = CanonicalHeapTree::new(vec![entry(1, 1, 1), entry(2, 2, 2)], HEAP_TREE_DEPTH);
    let fresh = entry(3, 3, 3);
    let plain = tree.insert_witness(fresh).unwrap();
    let guarded = tree.try_insert_witness(fresh).unwrap().unwrap();
    assert_eq!(plain.new_root, guarded.new_root);
    assert_ne!(guarded.new_root, guarded.old_root);
    let tree8 = CanonicalHeapTree8::new(vec![entry(1, 1, 1), entry(2, 2, 2)], HEAP_TREE_DEPTH);
    let plain8 = tree8.insert_witness(fresh).unwrap();
    let guarded8 = tree8.try_insert_witness(fresh).unwrap().unwrap();
    assert_eq!(plain8.new_root, guarded8.new_root);
    let aafi = tree8.insert_witness_aafi(fresh).unwrap();
    let guarded_aafi = tree8.try_insert_witness_aafi(fresh).unwrap().unwrap();
    assert_eq!(aafi.new_root, guarded_aafi.new_root);
    assert_eq!(guarded_aafi.free_index, 3);
    assert!(matches!(tree8.try_insert_witness_aafi(entry(1, 1, 9)), Ok(None)));
}

#[test]
fn pad_digests_are_refused() {
    let pad = BabyBear::zero();
    let a = BabyBear::new(7);
    assert_pad_free(&[a, a], &pad, "t");
    assert_pad_free_tail(&[pad, a], &pad, "t");
    assert_pad_free_tail::<BabyBear>(&[], &pad, "t");
    let tree = CanonicalHeapTree::try_new(vec![entry(1, 1, 1)], 4);
    assert!(tree.is_ok());
}

#[test]
fn descriptor_errors_name_what_the_original_names() {
    let unknown = r#"{"name":"x","trace_width":1,"constraints":[],"extra":1}"#;
    assert_eq!(parse_descriptor(unknown).unwrap_err(), "unknown top-level key \"extra\"");
    let vm_unknown = r#"{"name":"x","trace_width":1,"public_input_count":0,"constraints":[],"bogus":2}"#;
    assert_eq!(parse_vm_descriptor(vm_unknown).unwrap_err(), "unknown top-level key \"bogus\"");
    let pi = r#"{"name":"x","trace_width":2,"public_input_count":1,"constraints":[{"t":"pi_binding","row":"first","col":5,"pi_index":0}]}"#;
    assert_eq!(parse_vm_descriptor(pi).unwrap().check_bounds().unwrap_err(), "pi_binding 0 col 5 out of bounds");
    let rng = r#"{"name":"x","trace_width":2,"public_input_count":0,"constraints":[],"ranges":[{"wire":9,"bits":4}]}"#;
    assert_eq!(parse_vm_descriptor(rng).unwrap().check_bounds().unwrap_err(), "range 0 wire 9 out of bounds");
}

// ---- the heap tree: laws on concrete values ----

#[test]
fn write_then_read_back_by_rebuild() {
    let mut tree = CanonicalHeapTree8::new(vec![entry(1, 1, 10), entry(2, 2, 20)], HEAP_TREE_DEPTH);
    let addr = heap_addr(BabyBear::new(2), BabyBear::new(2));
    let pos = tree.position_of(addr).expect("present");
    let root = tree.apply_value_update(addr, BabyBear::new(99)).unwrap();
    assert_eq!(tree.sorted_leaves()[pos].value, BabyBear::new(99));
    let rebuilt = CanonicalHeapTree8::new(vec![entry(1, 1, 10), entry(2, 2, 99)], HEAP_TREE_DEPTH);
    assert_eq!(root.limbs(), rebuilt.root8().limbs());
}

#[test]
fn membership_paths_recompose_to_the_root() {
    let tree = CanonicalHeapTree::new(vec![entry(1, 1, 10), entry(1, 2, 20), entry(2, 1, 30)], 6);
    for pos in 0..tree.sorted_leaves().len() {
        let (sib, dir) = tree.prove_membership(pos).unwrap();
        let mut cur = tree.sorted_leaves()[pos].digest();
        for level in 0..6 {
            cur = if dir[level] == 0 { hash_fact(cur, &[sib[level]]) } else { hash_fact(sib[level], &[cur]) };
        }
        assert_eq!(cur, tree.root());
    }
    assert!(tree.prove_membership(1 << 6).is_none(), "outside the capacity");
    assert!(tree.prove_membership((1 << 6) - 1).is_some(), "a padding slot inside the capacity");
}

// ---- the 4-ary membership public inputs ----

#[test]
fn membership_public_inputs_are_leaf_then_root() {
    let leaf = d8(100);
    let (siblings, positions, root) = create_test_witness(leaf, 4);
    let pis = membership_public_inputs(leaf, &siblings, &positions).unwrap();
    assert_eq!(&pis[0..8], &leaf[..]);
    assert_eq!(&pis[8..16], &root[..]);
    assert_eq!(root, membership_root_4ary(leaf, &siblings, &positions));
}

#[test]
fn membership_public_inputs_refuse_a_shallow_witness() {
    let leaf = d8(100);
    let (siblings, positions, _root) = create_test_witness(leaf, 2);
    let r = membership_public_inputs(leaf, &siblings[..1], &positions[..1]);
    assert!(matches!(r, Err(MembershipP3Error::InvalidWitness(_))));
}

// ---- the descriptor decoders ----

#[test]
fn descriptor_members_in_any_order_and_ranges() {
    let d = parse_descriptor(
        "{\"ranges\":[{\"wire\":1,\"bits\":8}],\"constraints\":[{\"lhs\":{\"t\":\"var\",\"v\":0},\"rhs\":{\"t\":\"const\",\"v\":7}}],\"trace_width\":2,\"name\":\"h\u{e9}\"}",
    )
    .unwrap();
    assert_eq!(d.name, "h\u{e9}");
    assert_eq!(d.trace_width, 2);
    assert_eq!(d.ranges, vec![RangeSpec { wire: 1, bits: 8 }]);
    assert_eq!(d.constraints, vec![LeanConstraint::new(LeanExpr::Var(0), LeanExpr::Const(7))]);
    assert_eq!(d.max_degree(), 2, "a range check raises the degree to 2");
    assert_eq!(d.air_width(), 2 + 8);
    assert_eq!(d.aux_offset(1), 10);
    assert!(d.check_var_bounds().is_ok());
}

#[test]
fn a_later_member_overwrites_an_earlier_one() {
    let d = parse_descriptor("{\"name\":\"a\",\"trace_width\":1,\"constraints\":[],\"name\":\"b\"}").unwrap();
    assert_eq!(d.name, "b");
}

#[test]
fn descriptor_refusals() {
    let ok = "{\"name\":\"x\",\"trace_width\":1,\"constraints\":[]}";
    assert!(parse_descriptor(ok).is_ok());
    assert!(parse_descriptor("{\"trace_width\":1,\"constraints\":[]}").is_err(), "missing name");
    assert!(parse_descriptor("{\"name\":\"x\",\"constraints\":[]}").is_err(), "missing trace_width");
    assert!(parse_descriptor("{\"name\":\"x\",\"trace_width\":1}").is_err(), "missing constraints");
    assert!(parse_descriptor("{\"name\":\"x\",\"trace_width\":-1,\"constraints\":[]}").is_err(), "negative width");
    assert!(parse_descriptor("{\"name\":\"x\",\"trace_width\":1,\"constraints\":[],\"extra\":1}").is_err(), "unknown key");
    assert!(parse_descriptor("{}").is_err(), "empty object");
    assert!(parse_descriptor("{\"name\":\"x\",\"trace_width\":1,\"constraints\":[] ").is_err(), "unterminated");
    assert!(parse_descriptor("{\"name\":\"a\\\"b\",\"trace_width\":1,\"constraints\":[]}").is_err(), "escape");
    let c = |v: &str| {
        format!("{{\"name\":\"x\",\"trace_width\":1,\"constraints\":[{{\"lhs\":{{\"t\":\"const\",\"v\":{v}}},\"rhs\":{{\"t\":\"var\",\"v\":0}}}}]}}")
    };
    assert!(parse_descriptor(&c("2013265920")).is_ok(), "p - 1 fits a felt");
    assert!(parse_descriptor(&c("2013265921")).is_err(), "p does not");
    assert!(parse_descriptor(&c("-2013265921")).is_err(), "nor does -p");
    assert!(parse_descriptor(&c("-2013265920")).is_ok());
    assert!(parse_descriptor(&c("99999999999999999999999")).is_err(), "wider than i64 is refused");
    let v = |i: &str| {
        format!("{{\"name\":\"x\",\"trace_width\":1,\"constraints\":[{{\"lhs\":{{\"t\":\"var\",\"v\":{i}}},\"rhs\":{{\"t\":\"var\",\"v\":0}}}}]}}")
    };
    assert!(parse_descriptor(&v("-1")).is_err(), "negative column");
    assert!(parse_descriptor(&v("9223372036854775807")).is_ok());
    assert!(parse_descriptor(&v("9223372036854775808")).is_err(), "beyond i64");
    assert!(parse_descriptor(&v("x")).is_err(), "not a number");
    let r = |bits: &str| {
        format!("{{\"name\":\"x\",\"trace_width\":1,\"constraints\":[],\"ranges\":[{{\"wire\":0,\"bits\":{bits}}}]}}")
    };
    assert!(parse_descriptor(&r("30")).is_ok());
    assert!(parse_descriptor(&r("31")).is_err(), "a vacuous width is refused");
    assert!(parse_descriptor(&r("-1")).is_err());
}

#[test]
fn var_bounds_are_checked() {
    let d = LeanDescriptor::new("d", 2, vec![LeanConstraint::new(LeanExpr::Var(2), LeanExpr::Const(0))]);
    assert!(d.check_var_bounds().is_err());
    let ok = LeanDescriptor::new("d", 3, vec![LeanConstraint::new(LeanExpr::Var(2), LeanExpr::Const(0))]);
    assert!(ok.check_var_bounds().is_ok());
    let wide = LeanDescriptor::with_ranges("d", 3, vec![], vec![RangeSpec { wire: 0, bits: 64 }]);
    assert!(wide.check_var_bounds().is_err());
}

#[test]
fn expression_degree_and_max_var() {
    let e = LeanExpr::mul(LeanExpr::var(3), LeanExpr::add(LeanExpr::var(1), LeanExpr::constant(2)));
    assert_eq!(e.degree(), 2);
    assert_eq!(e.max_var(), Some(3));
    assert_eq!(LeanExpr::constant(5).max_var(), None);
}

#[test]
fn vm_descriptor_forms_and_bounds() {
    let json = "{\"name\":\"vm\",\"trace_width\":100,\"public_input_count\":1,\"constraints\":[{\"t\":\"transition\",\"hi\":0,\"lo\":1},{\"t\":\"pi_binding\",\"row\":\"last\",\"col\":3,\"pi_index\":0}],\"hash_sites\":[{\"digest_col\":5,\"arity\":2,\"inputs\":[{\"t\":\"col\",\"c\":1},{\"t\":\"zero\"}]},{\"digest_col\":6,\"arity\":2,\"inputs\":[{\"t\":\"digest\",\"k\":0},{\"t\":\"col\",\"c\":2}]}]}";
    let d = parse_vm_descriptor(json).unwrap();
    assert_eq!(d.constraints[0], VmConstraint::Transition { hi: 0, lo: 1 });
    assert_eq!(d.constraints[1], VmConstraint::PiBinding { row: VmRow::Last, col: 3, pi_index: 0 });
    assert_eq!(d.hash_sites[1].inputs, vec![HashInput::Digest(0), HashInput::Col(2)]);
    assert!(d.ranges.is_empty());
    assert!(d.check_bounds().is_ok());
    assert_eq!(d.air_width(), 100 + 2 * 352);
    assert_eq!(d.site_aux_base(1), 100 + 352);
    assert_eq!(d.range_aux_offset(0), 100 + 2 * 352);

    let narrow = json.replace("\"trace_width\":100", "\"trace_width\":70");
    assert!(parse_vm_descriptor(&narrow).unwrap().check_bounds().is_err(), "76 + lo is past the width");
    let late = json.replace("{\"t\":\"digest\",\"k\":0}", "{\"t\":\"digest\",\"k\":1}");
    assert!(parse_vm_descriptor(&late).unwrap().check_bounds().is_err(), "a digest must be strictly earlier");
    let short = json.replace("{\"t\":\"col\",\"c\":1},{\"t\":\"zero\"}", "{\"t\":\"zero\"}");
    assert!(parse_vm_descriptor(&short).unwrap().check_bounds().is_err(), "arity != inputs");
    let bad_arity = json.replace("\"arity\":2,\"inputs\":[{\"t\":\"col\",\"c\":1}", "\"arity\":3,\"inputs\":[{\"t\":\"col\",\"c\":1}");
    assert!(parse_vm_descriptor(&bad_arity).is_err(), "arity must be 2 or 4");
    let bad_row = json.replace("\"row\":\"last\"", "\"row\":\"middle\"");
    assert!(parse_vm_descriptor(&bad_row).is_err());
    let no_pic = json.replace("\"public_input_count\":1,", "");
    assert!(parse_vm_descriptor(&no_pic).is_err());
    let pi_out = json.replace("\"pi_index\":0", "\"pi_index\":1");
    assert!(parse_vm_descriptor(&pi_out).unwrap().check_bounds().is_err());
}

// ---- the fixture encoders ----

#[test]
fn json_arrays() {
    assert_eq!(nums(&[1, 22, 333]), "[1,22,333]");
    assert_eq!(nums(&[]), "[]");
    assert_eq!(arr(vec![String::from("[0]"), String::from("x")]), "[[0],x]");
    assert_eq!(nums(&[u32::MAX]), "[4294967295]");
}

// ---- the one-felt Merkle trace and its constraints ----

#[test]
fn honest_merkle_trace_satisfies_its_constraints() {
    let leaf = BabyBear::new(4242);
    let w = merkle_test_witness(leaf, 6);
    let air = MerkleAir::new(w.clone());
    let (trace, pis) = air.generate_trace();
    assert_eq!(trace.len(), 6);
    assert_eq!(pis, vec![leaf, w.expected_root]);
    for row in &trace {
        assert_eq!(air.constraints(row), [BabyBear::zero(), BabyBear::zero()]);
    }
    assert_eq!(air.first_row_constraints(&trace[0], &pis), BabyBear::zero());
    assert_eq!(air.last_row_constraints(&trace[5], &pis), BabyBear::zero());

    let mut forged = trace[2].clone();
    forged[5] += BabyBear::one();
    assert_eq!(air.constraints(&forged)[1], BabyBear::one(), "a forged parent is off by exactly the forgery");
    let mut bad_position = trace[2].clone();
    bad_position[4] = BabyBear::new(4);
    assert_eq!(air.constraints(&bad_position)[0], BabyBear::new(24), "4 * 3 * 2 * 1");
}

#[test]
fn next_row_columns_are_sorted_and_distinct() {
    let json = "{\"name\":\"vm\",\"trace_width\":100,\"public_input_count\":0,\"constraints\":[{\"t\":\"transition\",\"hi\":5,\"lo\":0},{\"t\":\"transition\",\"hi\":1,\"lo\":0},{\"t\":\"gate\",\"body\":{\"t\":\"const\",\"v\":0}},{\"t\":\"transition\",\"hi\":5,\"lo\":2}]}";
    let air = EffectVmDescriptorAir::new(parse_vm_descriptor(json).unwrap());
    assert_eq!(air.main_next_row_columns(), vec![55, 59]);
    assert_eq!(air.num_public_values(), 0);
    assert_eq!(air.max_constraint_degree(), Some(7));
    assert_eq!(air.width(), 100);
}

#[test]
fn cursor_literals() {
    let mut c = JsonCursor::new("  null true\tfalse x");
    assert_eq!(c.try_null(), Ok(true));
    assert_eq!(c.try_null(), Ok(false), "true is not null");
    assert_eq!(c.parse_bool(), Ok(true));
    assert_eq!(c.parse_bool(), Ok(false));
    assert!(c.parse_bool().is_err());
}

#[test]
fn trace_rows_carry_the_range_bits() {
    let d = LeanDescriptor::with_ranges("t", 2, vec![], vec![RangeSpec { wire: 1, bits: 4 }]);
    let trace = build_trace(&d, &[-1, 5]);
    assert_eq!(trace.len(), 4);
    let one = BabyBear::one();
    let zero = BabyBear::zero();
    let expected = vec![BabyBear::new(BABYBEAR_P - 1), BabyBear::new(5), one, zero, one, zero];
    for row in &trace {
        assert_eq!(row, &expected);
    }
    let wrapped = build_trace(&d, &[0, -1]);
    assert_eq!(&wrapped[0][2..], &[zero, zero, zero, zero], "p - 1 = 15 * 2^27: its low four bits are zero");
    let empty = build_trace(&LeanDescriptor::new("e", 0, vec![]), &[]);
    assert_eq!(empty[0], vec![zero], "no columns: one zero column");
}

// ---- key order inside objects ----

#[test]
fn expression_keys_may_come_in_any_order() {
    let json = r#"{"name":"x","trace_width":1,"constraints":[{"lhs":{"v":0,"t":"var"},"rhs":{"t":"const","v":0}}]}"#;
    let d = parse_descriptor(json).unwrap();
    assert_eq!(d.constraints, vec![LeanConstraint::new(LeanExpr::Var(0), LeanExpr::Const(0))]);
    let swapped = r#"{"name":"x","trace_width":2,"constraints":[{"rhs":{"r":{"v":1,"t":"var"},"t":"add","l":{"t":"const","v":3}},"lhs":{"t":"var","v":0}}],"ranges":[{"bits":8,"wire":1}]}"#;
    let d = parse_descriptor(swapped).unwrap();
    assert_eq!(
        d.constraints,
        vec![LeanConstraint::new(LeanExpr::Var(0), LeanExpr::add(LeanExpr::Const(3), LeanExpr::Var(1)))]
    );
    assert_eq!(d.ranges, vec![RangeSpec { wire: 1, bits: 8 }]);
}

#[test]
fn repeated_or_stray_object_keys_are_refused() {
    let dup = r#"{"name":"x","trace_width":1,"constraints":[{"lhs":{"t":"var","v":0,"v":1},"rhs":{"t":"const","v":0}}]}"#;
    assert!(parse_descriptor(dup).is_err());
    let stray = r#"{"name":"x","trace_width":1,"constraints":[{"lhs":{"t":"var","v":0,"l":{"t":"var","v":0}},"rhs":{"t":"const","v":0}}]}"#;
    assert!(parse_descriptor(stray).is_err());
    let missing = r#"{"name":"x","trace_width":1,"constraints":[{"lhs":{"t":"var","v":0}}]}"#;
    assert!(parse_descriptor(missing).is_err());
}

#[test]
fn vm_object_keys_may_come_in_any_order() {
    let json = r#"{"name":"vm","trace_width":100,"public_input_count":1,"constraints":[{"lo":1,"hi":0,"t":"transition"},{"pi_index":0,"col":3,"row":"last","t":"pi_binding"},{"body":{"v":2,"t":"var"},"t":"gate"}],"hash_sites":[{"inputs":[{"c":1,"t":"col"},{"t":"zero"}],"arity":2,"digest_col":5}]}"#;
    let d = parse_vm_descriptor(json).unwrap();
    assert_eq!(d.constraints[0], VmConstraint::Transition { hi: 0, lo: 1 });
    assert_eq!(d.constraints[1], VmConstraint::PiBinding { row: VmRow::Last, col: 3, pi_index: 0 });
    assert_eq!(d.constraints[2], VmConstraint::Gate(LeanExpr::Var(2)));
    assert_eq!(d.hash_sites[0].digest_col, 5);
    assert_eq!(d.hash_sites[0].inputs, vec![HashInput::Col(1), HashInput::Zero]);
    let stray = r#"{"name":"vm","trace_width":100,"public_input_count":1,"constraints":[{"t":"gate","body":{"t":"var","v":2},"hi":0}]}"#;
    assert!(parse_vm_descriptor(stray).is_err());
}

#[test]
fn sponge_squeezes_four_then_permutes() {
    let short = [BabyBear::new(1), BabyBear::new(2), BabyBear::new(3)];
    let wide = hash_many_8(&short);
    let chip = chip_absorb_all_lanes(3, &short);
    assert_eq!(&wide[0..4], &chip[0..4]);
    assert_eq!(wide[0], hash_many(&short));
    assert_ne!(&wide[4..8], &chip[4..8], "lanes 4..8 come from a second permutation");
    let long: Vec<BabyBear> = (0..11u32).map(BabyBear::new).collect();
    let w = hash_many_8(&long);
    let mut bumped = long.clone();
    bumped[10] = BabyBear::new(99);
    let w2 = hash_many_8(&bumped);
    for k in 0..8 {
        assert_ne!(w[k], w2[k], "every squeezed lane depends on the last chunk");
    }
}

#[test]
fn range_gates_pass_in_range_wires_and_refuse_out_of_range_ones() {
    let d = LeanDescriptor::with_ranges("r", 1, vec![], vec![RangeSpec { wire: 0, bits: 4 }]);
    let recomposes = |row: &Vec<BabyBear>| {
        let mut acc = 0u64;
        for i in 0..4 {
            let b = row[1 + i].as_u32();
            assert!(b == 0 || b == 1, "every aux cell is a bit");
            acc += (b as u64) << i;
        }
        acc == row[0].as_u32() as u64
    };
    let ok = build_trace(&d, &[13]);
    assert!(recomposes(&ok[0]));
    let out = build_trace(&d, &[20]);
    assert!(!recomposes(&out[0]), "20 has no four bits that recompose to it");
}

#[test]
fn a_sequence_of_writes_matches_the_rebuild_from_the_leaves() {
    let mut tree = CanonicalHeapTree::new(vec![entry(1, 1, 10), entry(1, 2, 20), entry(2, 1, 30)], 6);
    let addrs: Vec<BabyBear> = tree.sorted_leaves()[1..].iter().map(|l| l.addr).collect();
    for (n, a) in addrs.iter().cycle().take(7).enumerate() {
        let root = tree.apply_value_update(*a, BabyBear::new(100 + n as u32)).unwrap();
        let rebuilt = CanonicalHeapTree::new(tree.sorted_leaves().to_vec(), 6);
        assert_eq!(root, rebuilt.root());
        assert_eq!(root, tree.root());
    }
}

#[test]
fn the_4ary_root_unfolds_from_the_front() {
    let leaf = d8(7);
    let (sibs, pos, root) = create_test_witness(leaf, 3);
    let mut ch = [sibs[0][0], sibs[0][1], sibs[0][2], sibs[0][2]];
    let p0 = pos[0] as usize;
    let mut k = 0;
    for j in 0..4 {
        if j == p0 {
            ch[j] = leaf;
        } else {
            ch[j] = sibs[0][k];
            k += 1;
        }
    }
    let first = heap_circuit::membership_descriptor_4ary::node8_4ary(&ch);
    assert_eq!(membership_root_4ary(first, &sibs[1..], &pos[1..]), root);
    assert_eq!(membership_root_4ary(leaf, &[], &[]), leaf);
}
