use heap_circuit::field::BabyBear;
use heap_circuit::membership_descriptor_4ary::{absorb16, membership_witness_4ary, node8_4ary, Digest8, DIGEST_W};
use heap_circuit::lean_descriptor_air::{i64_to_babybear, LeanExpr};
use heap_circuit::membership_descriptor_general::{
    dir_binary_body, left_order_body, membership_descriptor_of_depth, membership_witness, right_order_body,
    LookupTable, MembershipConstraint, MembershipStep, DIR, LEFT, MEMBERSHIP_GENERAL_PI_COUNT, MEMBERSHIP_GENERAL_WIDTH,
    RIGHT,
};

fn eval(e: &LeanExpr, row: &[BabyBear]) -> BabyBear {
    match e {
        LeanExpr::Var(i) => row[*i],
        LeanExpr::Const(c) => i64_to_babybear(*c),
        LeanExpr::Add(a, b) => eval(a, row).add_felt(eval(b, row)),
        LeanExpr::Mul(a, b) => eval(a, row).mul_felt(eval(b, row)),
    }
}

fn d8(base: u32) -> Digest8 {
    core::array::from_fn(|k| BabyBear::new(base + k as u32))
}

#[test]
fn node8_fold_binds_all_thirty_two_child_felts_across_all_eight_lanes() {
    let children = [d8(1_000), d8(2_000), d8(3_000), d8(4_000)];
    let par = node8_4ary(&children);

    for i in 0..DIGEST_W {
        for j in (i + 1)..DIGEST_W {
            assert_ne!(par[i], par[j], "parent lanes {i},{j} collide — not 8 felts");
        }
    }
    for c in 0..4 {
        for k in 0..DIGEST_W {
            let mut alt = children;
            alt[c][k] += BabyBear::one();
            let alt_par = node8_4ary(&alt);
            for i in 0..DIGEST_W {
                assert_ne!(
                    par[i], alt_par[i],
                    "parent lane {i} unchanged after perturbing child {c} lane {k} — that input felt is dead"
                );
            }
        }
    }
    let h01 = absorb16(&children[0], &children[1]);
    let h23 = absorb16(&children[2], &children[3]);
    assert_eq!(par, absorb16(&h01, &h23));
}

#[test]
fn malformed_witness_refuses() {
    let leaf = d8(7);
    let zero3 = [[BabyBear::zero(); DIGEST_W]; 3];
    assert!(membership_witness_4ary(leaf, &vec![zero3; 3], &[0, 0, 0]).is_err());
    assert!(membership_witness_4ary(leaf, &vec![zero3; 2], &[0]).is_err());
    assert!(membership_witness_4ary(leaf, &vec![zero3; 2], &[0, 4]).is_err());
}

#[test]
fn non_power_of_two_depth_refuses() {
    let leaf = BabyBear::new(7);
    let path: Vec<MembershipStep> = (0..3)
        .map(|i| MembershipStep { sibling: BabyBear::new(i + 1), dir: false })
        .collect();
    assert!(membership_witness(leaf, &path).is_err(), "depth 3 must refuse");
}

#[test]
fn gate_bodies_have_their_shape() {
    assert_eq!(
        dir_binary_body(),
        LeanExpr::mul(LeanExpr::var(DIR), LeanExpr::add(LeanExpr::var(DIR), LeanExpr::constant(-1)))
    );
    assert!(matches!(left_order_body(), LeanExpr::Add(ref l, _) if **l == LeanExpr::Var(LEFT)));
    assert!(matches!(right_order_body(), LeanExpr::Add(ref r, _) if **r == LeanExpr::Var(RIGHT)));
}

#[test]
fn honest_rows_satisfy_the_row_gates_and_swapped_rows_do_not() {
    let leaf = BabyBear::new(7);
    let path: Vec<MembershipStep> = (0..4u32)
        .map(|i| MembershipStep { sibling: BabyBear::new(100 + i), dir: i % 2 == 1 })
        .collect();
    let (trace, _) = membership_witness(leaf, &path).unwrap();
    let gates = [dir_binary_body(), left_order_body(), right_order_body()];
    for row in &trace {
        for g in &gates {
            assert_eq!(eval(g, row), BabyBear::zero());
        }
        let mut swapped = row.clone();
        swapped.swap(LEFT, RIGHT);
        assert_ne!(eval(&gates[1], &swapped), BabyBear::zero());
        assert_ne!(eval(&gates[2], &swapped), BabyBear::zero());
        let mut bad_dir = row.clone();
        bad_dir[DIR] = BabyBear::new(2);
        assert_ne!(eval(&gates[0], &bad_dir), BabyBear::zero());
    }
}

#[test]
fn membership_descriptor_general_descriptor_shape() {
    let d = membership_descriptor_of_depth(8);
    assert_eq!(d.trace_width, MEMBERSHIP_GENERAL_WIDTH);
    assert_eq!(d.public_input_count, MEMBERSHIP_GENERAL_PI_COUNT);
    assert!(d.tables.is_empty());
    let chip = d
        .constraints
        .iter()
        .filter(|c| matches!(c, MembershipConstraint::Lookup(l) if l.table == LookupTable::Poseidon2))
        .count();
    assert_eq!(chip, 1);
    let win = d.constraints.iter().filter(|c| matches!(c, MembershipConstraint::WindowGate(_))).count();
    assert_eq!(win, 1, "the single cross-row continuity gate");
    assert!(d.name.contains("depth8"));
}

#[test]
fn general_descriptor_names_its_depth_and_holds_ten_constraints() {
    let d = membership_descriptor_of_depth(16);
    assert_eq!(d.name, "merkle-membership::poseidon2-binary-general-depth16");
    assert_eq!(d.constraints.len(), 10);
    assert_eq!(d.constraints[0], MembershipConstraint::Base(heap_circuit::lean_descriptor_air::VmConstraint::Gate(dir_binary_body())));
    match &d.constraints[3] {
        MembershipConstraint::Lookup(l) => {
            assert_eq!(l.tuple.len(), 25);
            assert_eq!(l.tuple[0], LeanExpr::Const(2));
            assert_eq!(l.tuple[1], LeanExpr::Var(LEFT));
            assert_eq!(l.tuple[17], LeanExpr::Var(5));
        },
        _ => panic!("the fourth constraint is the parent lookup"),
    }
}
