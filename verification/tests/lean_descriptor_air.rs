use heap_circuit::field::{BabyBear, BABYBEAR_P};
use heap_circuit::lean_descriptor_air::{
    i64_to_babybear, parse_descriptor, parse_vm_descriptor, EffectVmDescriptor, HashInput, LeanConstraint,
    LeanDescriptor, LeanExpr, RangeSpec, VmConstraint, VmHashSite, VmRow, EFFECTVM_STATE_AFTER_BASE,
    EFFECTVM_STATE_BEFORE_BASE,
};

/// The transfer shape: a conservation gate and two `bit == 1` gates over a
/// six-wire row.
fn transfer_test_descriptor() -> LeanDescriptor {
    let conservation = LeanConstraint::new(
        LeanExpr::Add(Box::new(LeanExpr::Var(2)), Box::new(LeanExpr::Var(3))),
        LeanExpr::Add(Box::new(LeanExpr::Var(0)), Box::new(LeanExpr::Var(1))),
    );
    let bit_a = LeanConstraint::new(LeanExpr::Var(4), LeanExpr::Const(1));
    let bit_b = LeanConstraint::new(LeanExpr::Var(5), LeanExpr::Const(1));
    LeanDescriptor::new("dregg-transfer-test-v1", 6, vec![conservation, bit_a, bit_b])
}


const POSEIDON2_COMPRESS_DESCRIPTOR_JSON: &str = r#"{"name":"dregg-poseidon2-compress-v1","trace_width":6,"public_input_count":2,"constraints":[{"t":"merkle_hash","output_col":5,"current_col":0,"sib_cols":[1,2,3],"position_col":4},{"t":"transition","next_col":0,"local_col":5},{"t":"pi_binding_first","col":0,"pi_index":0},{"t":"pi_binding_last","col":5,"pi_index":1}]}"#;

#[test]
fn lean_emitted_poseidon2_compress_golden() {
    assert_eq!(
        POSEIDON2_COMPRESS_DESCRIPTOR_JSON,
        r#"{"name":"dregg-poseidon2-compress-v1","trace_width":6,"public_input_count":2,"constraints":[{"t":"merkle_hash","output_col":5,"current_col":0,"sib_cols":[1,2,3],"position_col":4},{"t":"transition","next_col":0,"local_col":5},{"t":"pi_binding_first","col":0,"pi_index":0},{"t":"pi_binding_last","col":5,"pi_index":1}]}"#
    );
    assert!(
        POSEIDON2_COMPRESS_DESCRIPTOR_JSON.contains(r#""name":"dregg-poseidon2-compress-v1""#)
    );
    assert!(POSEIDON2_COMPRESS_DESCRIPTOR_JSON.contains(r#""trace_width":6"#));
    assert!(POSEIDON2_COMPRESS_DESCRIPTOR_JSON.contains(r#""public_input_count":2"#));
    assert_eq!(
        POSEIDON2_COMPRESS_DESCRIPTOR_JSON
            .matches(r#""t":"merkle_hash""#)
            .count(),
        1
    );
    assert_eq!(
        POSEIDON2_COMPRESS_DESCRIPTOR_JSON
            .matches(r#""t":"transition""#)
            .count(),
        1
    );
    assert_eq!(
        POSEIDON2_COMPRESS_DESCRIPTOR_JSON
            .matches(r#""t":"pi_binding_first""#)
            .count(),
        1
    );
    assert_eq!(
        POSEIDON2_COMPRESS_DESCRIPTOR_JSON
            .matches(r#""t":"pi_binding_last""#)
            .count(),
        1
    );
    let merkle_constraints = r#"{"t":"merkle_hash","output_col":5,"current_col":0,"sib_cols":[1,2,3],"position_col":4},{"t":"transition","next_col":0,"local_col":5},{"t":"pi_binding_first","col":0,"pi_index":0},{"t":"pi_binding_last","col":5,"pi_index":1}"#;
    assert!(POSEIDON2_COMPRESS_DESCRIPTOR_JSON.contains(merkle_constraints));
}

#[test]
fn parse_descriptor_basic() {
    let json = r#"{ "name" : "t" , "trace_width" : 3 , "constraints" : [
        { "lhs" : {"t":"var","v":2} ,
          "rhs" : {"t":"add","l":{"t":"var","v":0},"r":{"t":"mul","l":{"t":"const","v":-1},"r":{"t":"var","v":1}}} } ] }"#;
    let d = parse_descriptor(json).expect("whitespace-tolerant parse");
    assert_eq!(d.name, "t");
    assert_eq!(d.trace_width, 3);
    assert_eq!(d.constraints.len(), 1);
    assert_eq!(d.constraints[0].lhs, LeanExpr::Var(2));
    assert_eq!(
        d.constraints[0].rhs,
        LeanExpr::add(
            LeanExpr::Var(0),
            LeanExpr::mul(LeanExpr::Const(-1), LeanExpr::Var(1))
        )
    );
    let empty = parse_descriptor(r#"{"name":"e","trace_width":1,"constraints":[]}"#)
        .expect("empty constraint list parses");
    assert!(empty.constraints.is_empty());
    assert!(parse_descriptor(r#"{"name":"x","trace_width":1,"constraints":[{"lhs":{"t":"bogus"},"rhs":{"t":"const","v":0}}]}"#).is_err());
}

#[test]
fn i64_to_babybear_handles_negatives() {
    assert_eq!(i64_to_babybear(0), BabyBear::new(0));
    assert_eq!(i64_to_babybear(5), BabyBear::new(5));
    assert_eq!(i64_to_babybear(-1), BabyBear::new(BABYBEAR_P - 1));
    assert_eq!(i64_to_babybear(-(BABYBEAR_P as i64)), BabyBear::new(0));
}

#[test]
fn descriptor_degree_is_correct() {
    let desc = transfer_test_descriptor();
    assert_eq!(desc.max_degree(), 1);
}

/// An emitted EffectVM transfer descriptor.
const TRANSFER_VM_DESCRIPTOR_JSON: &str = r#"{"name":"dregg-effectvm-transfer-v1","trace_width":188,"public_input_count":42,"constraints":[{"t":"gate","body":{"t":"add","l":{"t":"add","l":{"t":"var","v":76},"r":{"t":"mul","l":{"t":"const","v":-1},"r":{"t":"var","v":54}}},"r":{"t":"add","l":{"t":"mul","l":{"t":"const","v":-1},"r":{"t":"var","v":68}},"r":{"t":"mul","l":{"t":"const","v":2},"r":{"t":"mul","l":{"t":"var","v":69},"r":{"t":"var","v":68}}}}}},{"t":"gate","body":{"t":"add","l":{"t":"var","v":77},"r":{"t":"mul","l":{"t":"const","v":-1},"r":{"t":"var","v":55}}}},{"t":"gate","body":{"t":"mul","l":{"t":"var","v":69},"r":{"t":"add","l":{"t":"var","v":69},"r":{"t":"const","v":-1}}}},{"t":"gate","body":{"t":"add","l":{"t":"add","l":{"t":"var","v":78},"r":{"t":"mul","l":{"t":"const","v":-1},"r":{"t":"var","v":56}}},"r":{"t":"mul","l":{"t":"const","v":-1},"r":{"t":"add","l":{"t":"const","v":1},"r":{"t":"mul","l":{"t":"const","v":-1},"r":{"t":"var","v":0}}}}}},{"t":"gate","body":{"t":"add","l":{"t":"var","v":87},"r":{"t":"mul","l":{"t":"const","v":-1},"r":{"t":"var","v":65}}}},{"t":"gate","body":{"t":"add","l":{"t":"var","v":89},"r":{"t":"mul","l":{"t":"const","v":-1},"r":{"t":"var","v":67}}}},{"t":"gate","body":{"t":"add","l":{"t":"var","v":79},"r":{"t":"mul","l":{"t":"const","v":-1},"r":{"t":"var","v":57}}}},{"t":"gate","body":{"t":"add","l":{"t":"var","v":80},"r":{"t":"mul","l":{"t":"const","v":-1},"r":{"t":"var","v":58}}}},{"t":"gate","body":{"t":"add","l":{"t":"var","v":81},"r":{"t":"mul","l":{"t":"const","v":-1},"r":{"t":"var","v":59}}}},{"t":"gate","body":{"t":"add","l":{"t":"var","v":82},"r":{"t":"mul","l":{"t":"const","v":-1},"r":{"t":"var","v":60}}}},{"t":"gate","body":{"t":"add","l":{"t":"var","v":83},"r":{"t":"mul","l":{"t":"const","v":-1},"r":{"t":"var","v":61}}}},{"t":"gate","body":{"t":"add","l":{"t":"var","v":84},"r":{"t":"mul","l":{"t":"const","v":-1},"r":{"t":"var","v":62}}}},{"t":"gate","body":{"t":"add","l":{"t":"var","v":85},"r":{"t":"mul","l":{"t":"const","v":-1},"r":{"t":"var","v":63}}}},{"t":"gate","body":{"t":"add","l":{"t":"var","v":86},"r":{"t":"mul","l":{"t":"const","v":-1},"r":{"t":"var","v":64}}}},{"t":"transition","hi":0,"lo":0},{"t":"transition","hi":1,"lo":1},{"t":"transition","hi":2,"lo":2},{"t":"transition","hi":3,"lo":3},{"t":"transition","hi":4,"lo":4},{"t":"transition","hi":5,"lo":5},{"t":"transition","hi":6,"lo":6},{"t":"transition","hi":7,"lo":7},{"t":"transition","hi":8,"lo":8},{"t":"transition","hi":9,"lo":9},{"t":"transition","hi":10,"lo":10},{"t":"transition","hi":11,"lo":11},{"t":"transition","hi":12,"lo":12},{"t":"transition","hi":13,"lo":13},{"t":"pi_binding","row":"first","col":56,"pi_index":41},{"t":"pi_binding","row":"first","col":54,"pi_index":20},{"t":"pi_binding","row":"first","col":55,"pi_index":21},{"t":"pi_binding","row":"first","col":66,"pi_index":0},{"t":"pi_binding","row":"last","col":88,"pi_index":8},{"t":"pi_binding","row":"last","col":76,"pi_index":22},{"t":"pi_binding","row":"last","col":77,"pi_index":23},{"t":"gate","body":{"t":"mul","l":{"t":"add","l":{"t":"const","v":1},"r":{"t":"mul","l":{"t":"const","v":-1},"r":{"t":"var","v":0}}},"r":{"t":"add","l":{"t":"const","v":1},"r":{"t":"mul","l":{"t":"const","v":-1},"r":{"t":"var","v":1}}}}}],"hash_sites":[{"digest_col":98,"arity":4,"inputs":[{"t":"col","c":76},{"t":"col","c":77},{"t":"col","c":78},{"t":"col","c":79}]},{"digest_col":99,"arity":4,"inputs":[{"t":"col","c":80},{"t":"col","c":81},{"t":"col","c":82},{"t":"col","c":83}]},{"digest_col":100,"arity":4,"inputs":[{"t":"col","c":84},{"t":"col","c":85},{"t":"col","c":86},{"t":"col","c":87}]},{"digest_col":88,"arity":4,"inputs":[{"t":"digest","k":0},{"t":"digest","k":1},{"t":"digest","k":2},{"t":"col","c":186}]}],"ranges":[{"wire":76,"bits":30},{"wire":77,"bits":30}]}"#;

#[test]
fn parse_vm_descriptor_transfer() {
    let d = parse_vm_descriptor(TRANSFER_VM_DESCRIPTOR_JSON)
        .expect("Lean-emitted EffectVM transfer descriptor must parse");
    assert_eq!(d.name, "dregg-effectvm-transfer-v1");
    assert_eq!(d.trace_width, 188);
    assert_eq!(d.public_input_count, 42);
    assert_eq!(d.constraints.len(), 14 + 14 + 7 + 1);
    assert_eq!(d.hash_sites.len(), 4);
    assert_eq!(d.ranges.len(), 2);

    let gates = d
        .constraints
        .iter()
        .filter(|c| matches!(c, VmConstraint::Gate(_)))
        .count();
    let transitions = d
        .constraints
        .iter()
        .filter(|c| matches!(c, VmConstraint::Transition { .. }))
        .count();
    let pis = d
        .constraints
        .iter()
        .filter(|c| matches!(c, VmConstraint::PiBinding { .. }))
        .count();
    assert_eq!((gates, transitions, pis), (15, 14, 7));

    assert!(d.constraints.contains(&VmConstraint::PiBinding {
        row: VmRow::First,
        col: 56,
        pi_index: 41,
    }));
    assert!(d.constraints.contains(&VmConstraint::PiBinding {
        row: VmRow::Last,
        col: 88,
        pi_index: 8,
    }));

    let s3 = &d.hash_sites[3];
    assert_eq!(s3.digest_col, 88);
    assert_eq!(
        s3.inputs,
        vec![
            HashInput::Digest(0),
            HashInput::Digest(1),
            HashInput::Digest(2),
            HashInput::Col(186)
        ]
    );
    assert_eq!(d.air_width(), 188 + 4 * 352 + 2 * 30);
}

#[test]
fn boundary_form_decodes_from_lean_json() {
    let json = r#"{"name":"dregg-boundary-decode-v0","trace_width":186,"public_input_count":0,"constraints":[{"t":"boundary","row":"first","body":{"t":"var","v":100}},{"t":"boundary","row":"last","body":{"t":"add","l":{"t":"var","v":101},"r":{"t":"mul","l":{"t":"const","v":-1},"r":{"t":"var","v":102}}}}],"hash_sites":[],"ranges":[]}"#;
    let desc = parse_vm_descriptor(json).expect("a .boundary-emitting descriptor must DECODE");
    assert_eq!(desc.constraints.len(), 2);
    assert_eq!(
        desc.constraints[0],
        VmConstraint::Boundary {
            row: VmRow::First,
            body: LeanExpr::Var(100)
        }
    );
    assert_eq!(
        desc.constraints[1],
        VmConstraint::Boundary {
            row: VmRow::Last,
            body: LeanExpr::add(
                LeanExpr::Var(101),
                LeanExpr::mul(LeanExpr::Const(-1), LeanExpr::Var(102))
            ),
        }
    );
    assert!(desc.check_bounds().is_ok());
}

/// The decision corpus: one descriptor, one row window and its verdict per case.
const LEAN_DECIDE_VM_GOLDEN: &str = r#"CASE gate-eq-accept
DESC {"name":"dregg-interpgolden-gate-eq-accept","trace_width":186,"public_input_count":4,"constraints":[{"t":"gate","body":{"t":"add","l":{"t":"var","v":5},"r":{"t":"mul","l":{"t":"const","v":-1},"r":{"t":"var","v":6}}}}],"hash_sites":[],"ranges":[]}
LOC 5:42 6:42
NXT 
PUB 0 0 0 0
FLAGS false false
VERDICT true
CASE gate-eq-reject
DESC {"name":"dregg-interpgolden-gate-eq-reject","trace_width":186,"public_input_count":4,"constraints":[{"t":"gate","body":{"t":"add","l":{"t":"var","v":5},"r":{"t":"mul","l":{"t":"const","v":-1},"r":{"t":"var","v":6}}}}],"hash_sites":[],"ranges":[]}
LOC 5:42 6:43
NXT 
PUB 0 0 0 0
FLAGS false false
VERDICT false
CASE gate-const-zero-accept
DESC {"name":"dregg-interpgolden-gate-const-zero-accept","trace_width":186,"public_input_count":4,"constraints":[{"t":"gate","body":{"t":"const","v":0}}],"hash_sites":[],"ranges":[]}
LOC 
NXT 
PUB 0 0 0 0
FLAGS false false
VERDICT true
CASE gate-const-neg-reject
DESC {"name":"dregg-interpgolden-gate-const-neg-reject","trace_width":186,"public_input_count":4,"constraints":[{"t":"gate","body":{"t":"const","v":-3}}],"hash_sites":[],"ranges":[]}
LOC 
NXT 
PUB 0 0 0 0
FLAGS false false
VERDICT false
CASE gate-mul-zero-accept
DESC {"name":"dregg-interpgolden-gate-mul-zero-accept","trace_width":186,"public_input_count":4,"constraints":[{"t":"gate","body":{"t":"mul","l":{"t":"var","v":2},"r":{"t":"var","v":3}}}],"hash_sites":[],"ranges":[]}
LOC 2:0 3:7
NXT 
PUB 0 0 0 0
FLAGS false false
VERDICT true
CASE gate-nested-accept
DESC {"name":"dregg-interpgolden-gate-nested-accept","trace_width":186,"public_input_count":4,"constraints":[{"t":"gate","body":{"t":"add","l":{"t":"mul","l":{"t":"add","l":{"t":"var","v":2},"r":{"t":"var","v":3}},"r":{"t":"var","v":4}},"r":{"t":"mul","l":{"t":"const","v":-1},"r":{"t":"var","v":7}}}}],"hash_sites":[],"ranges":[]}
LOC 2:3 3:4 4:10 7:70
NXT 
PUB 0 0 0 0
FLAGS false false
VERDICT true
CASE gate-nested-reject
DESC {"name":"dregg-interpgolden-gate-nested-reject","trace_width":186,"public_input_count":4,"constraints":[{"t":"gate","body":{"t":"add","l":{"t":"mul","l":{"t":"add","l":{"t":"var","v":2},"r":{"t":"var","v":3}},"r":{"t":"var","v":4}},"r":{"t":"mul","l":{"t":"const","v":-1},"r":{"t":"var","v":7}}}}],"hash_sites":[],"ranges":[]}
LOC 2:3 3:4 4:10 7:71
NXT 
PUB 0 0 0 0
FLAGS false false
VERDICT false
CASE transition-accept
DESC {"name":"dregg-interpgolden-transition-accept","trace_width":186,"public_input_count":4,"constraints":[{"t":"transition","hi":3,"lo":5}],"hash_sites":[],"ranges":[]}
LOC 81:9
NXT 57:9
PUB 0 0 0 0
FLAGS false false
VERDICT true
CASE transition-reject
DESC {"name":"dregg-interpgolden-transition-reject","trace_width":186,"public_input_count":4,"constraints":[{"t":"transition","hi":3,"lo":5}],"hash_sites":[],"ranges":[]}
LOC 81:8
NXT 57:9
PUB 0 0 0 0
FLAGS false false
VERDICT false
CASE transition-unguarded-at-last-reject
DESC {"name":"dregg-interpgolden-transition-unguarded-at-last-reject","trace_width":186,"public_input_count":4,"constraints":[{"t":"transition","hi":3,"lo":5}],"hash_sites":[],"ranges":[]}
LOC 81:8
NXT 57:9
PUB 0 0 0 0
FLAGS false true
VERDICT false
CASE boundary-first-accept-on-row
DESC {"name":"dregg-interpgolden-boundary-first-accept-on-row","trace_width":186,"public_input_count":4,"constraints":[{"t":"boundary","row":"first","body":{"t":"add","l":{"t":"var","v":100},"r":{"t":"mul","l":{"t":"const","v":-1},"r":{"t":"var","v":101}}}}],"hash_sites":[],"ranges":[]}
LOC 100:5 101:5
NXT 
PUB 0 0 0 0
FLAGS true false
VERDICT true
CASE boundary-first-reject-on-row
DESC {"name":"dregg-interpgolden-boundary-first-reject-on-row","trace_width":186,"public_input_count":4,"constraints":[{"t":"boundary","row":"first","body":{"t":"add","l":{"t":"var","v":100},"r":{"t":"mul","l":{"t":"const","v":-1},"r":{"t":"var","v":101}}}}],"hash_sites":[],"ranges":[]}
LOC 100:5 101:6
NXT 
PUB 0 0 0 0
FLAGS true false
VERDICT false
CASE boundary-first-vacuous-off-row
DESC {"name":"dregg-interpgolden-boundary-first-vacuous-off-row","trace_width":186,"public_input_count":4,"constraints":[{"t":"boundary","row":"first","body":{"t":"add","l":{"t":"var","v":100},"r":{"t":"mul","l":{"t":"const","v":-1},"r":{"t":"var","v":101}}}}],"hash_sites":[],"ranges":[]}
LOC 100:5 101:6
NXT 
PUB 0 0 0 0
FLAGS false false
VERDICT true
CASE boundary-last-accept-on-row
DESC {"name":"dregg-interpgolden-boundary-last-accept-on-row","trace_width":186,"public_input_count":4,"constraints":[{"t":"boundary","row":"last","body":{"t":"add","l":{"t":"var","v":102},"r":{"t":"mul","l":{"t":"const","v":-1},"r":{"t":"var","v":103}}}}],"hash_sites":[],"ranges":[]}
LOC 102:8 103:8
NXT 
PUB 0 0 0 0
FLAGS false true
VERDICT true
CASE boundary-last-reject-on-row
DESC {"name":"dregg-interpgolden-boundary-last-reject-on-row","trace_width":186,"public_input_count":4,"constraints":[{"t":"boundary","row":"last","body":{"t":"add","l":{"t":"var","v":102},"r":{"t":"mul","l":{"t":"const","v":-1},"r":{"t":"var","v":103}}}}],"hash_sites":[],"ranges":[]}
LOC 102:8 103:9
NXT 
PUB 0 0 0 0
FLAGS false true
VERDICT false
CASE boundary-last-vacuous-off-row
DESC {"name":"dregg-interpgolden-boundary-last-vacuous-off-row","trace_width":186,"public_input_count":4,"constraints":[{"t":"boundary","row":"last","body":{"t":"add","l":{"t":"var","v":102},"r":{"t":"mul","l":{"t":"const","v":-1},"r":{"t":"var","v":103}}}}],"hash_sites":[],"ranges":[]}
LOC 102:8 103:9
NXT 
PUB 0 0 0 0
FLAGS true false
VERDICT true
CASE boundary-single-row-both-hold
DESC {"name":"dregg-interpgolden-boundary-single-row-both-hold","trace_width":186,"public_input_count":4,"constraints":[{"t":"boundary","row":"first","body":{"t":"add","l":{"t":"var","v":100},"r":{"t":"mul","l":{"t":"const","v":-1},"r":{"t":"var","v":101}}}},{"t":"boundary","row":"last","body":{"t":"add","l":{"t":"var","v":102},"r":{"t":"mul","l":{"t":"const","v":-1},"r":{"t":"var","v":103}}}}],"hash_sites":[],"ranges":[]}
LOC 100:5 101:5 102:8 103:8
NXT 
PUB 0 0 0 0
FLAGS true true
VERDICT true
CASE boundary-single-row-last-broken
DESC {"name":"dregg-interpgolden-boundary-single-row-last-broken","trace_width":186,"public_input_count":4,"constraints":[{"t":"boundary","row":"first","body":{"t":"add","l":{"t":"var","v":100},"r":{"t":"mul","l":{"t":"const","v":-1},"r":{"t":"var","v":101}}}},{"t":"boundary","row":"last","body":{"t":"add","l":{"t":"var","v":102},"r":{"t":"mul","l":{"t":"const","v":-1},"r":{"t":"var","v":103}}}}],"hash_sites":[],"ranges":[]}
LOC 100:5 101:5 102:8 103:9
NXT 
PUB 0 0 0 0
FLAGS true true
VERDICT false
CASE pi-first-accept
DESC {"name":"dregg-interpgolden-pi-first-accept","trace_width":186,"public_input_count":4,"constraints":[{"t":"pi_binding","row":"first","col":10,"pi_index":0}],"hash_sites":[],"ranges":[]}
LOC 10:77
NXT 
PUB 77 0 0 0
FLAGS true false
VERDICT true
CASE pi-first-reject
DESC {"name":"dregg-interpgolden-pi-first-reject","trace_width":186,"public_input_count":4,"constraints":[{"t":"pi_binding","row":"first","col":10,"pi_index":0}],"hash_sites":[],"ranges":[]}
LOC 10:77
NXT 
PUB 78 0 0 0
FLAGS true false
VERDICT false
CASE pi-first-vacuous-off-row
DESC {"name":"dregg-interpgolden-pi-first-vacuous-off-row","trace_width":186,"public_input_count":4,"constraints":[{"t":"pi_binding","row":"first","col":10,"pi_index":0}],"hash_sites":[],"ranges":[]}
LOC 10:77
NXT 
PUB 78 0 0 0
FLAGS false false
VERDICT true
CASE pi-last-accept
DESC {"name":"dregg-interpgolden-pi-last-accept","trace_width":186,"public_input_count":4,"constraints":[{"t":"pi_binding","row":"last","col":11,"pi_index":2}],"hash_sites":[],"ranges":[]}
LOC 11:5
NXT 
PUB 0 0 5 0
FLAGS false true
VERDICT true
CASE pi-last-reject
DESC {"name":"dregg-interpgolden-pi-last-reject","trace_width":186,"public_input_count":4,"constraints":[{"t":"pi_binding","row":"last","col":11,"pi_index":2}],"hash_sites":[],"ranges":[]}
LOC 11:5
NXT 
PUB 0 0 6 0
FLAGS false true
VERDICT false
CASE pi-last-vacuous-off-row
DESC {"name":"dregg-interpgolden-pi-last-vacuous-off-row","trace_width":186,"public_input_count":4,"constraints":[{"t":"pi_binding","row":"last","col":11,"pi_index":2}],"hash_sites":[],"ranges":[]}
LOC 11:5
NXT 
PUB 0 0 6 0
FLAGS false false
VERDICT true
CASE site-single-accept
DESC {"name":"dregg-interpgolden-site-single-accept","trace_width":186,"public_input_count":4,"constraints":[],"hash_sites":[{"digest_col":120,"arity":2,"inputs":[{"t":"col","c":30},{"t":"zero"}]}],"ranges":[]}
LOC 30:9 120:7006
NXT 
PUB 0 0 0 0
FLAGS false false
VERDICT true
CASE site-single-reject
DESC {"name":"dregg-interpgolden-site-single-reject","trace_width":186,"public_input_count":4,"constraints":[],"hash_sites":[{"digest_col":120,"arity":2,"inputs":[{"t":"col","c":30},{"t":"zero"}]}],"ranges":[]}
LOC 30:9 120:7007
NXT 
PUB 0 0 0 0
FLAGS false false
VERDICT false
CASE site-chain-accept
DESC {"name":"dregg-interpgolden-site-chain-accept","trace_width":186,"public_input_count":4,"constraints":[],"hash_sites":[{"digest_col":120,"arity":2,"inputs":[{"t":"col","c":30},{"t":"zero"}]},{"digest_col":121,"arity":2,"inputs":[{"t":"digest","k":0},{"t":"col","c":31}]}],"ranges":[]}
LOC 30:9 31:4 120:7006 121:223917
NXT 
PUB 0 0 0 0
FLAGS false false
VERDICT true
CASE site-chain-first-corrupt-reject
DESC {"name":"dregg-interpgolden-site-chain-first-corrupt-reject","trace_width":186,"public_input_count":4,"constraints":[],"hash_sites":[{"digest_col":120,"arity":2,"inputs":[{"t":"col","c":30},{"t":"zero"}]},{"digest_col":121,"arity":2,"inputs":[{"t":"digest","k":0},{"t":"col","c":31}]}],"ranges":[]}
LOC 30:9 31:4 120:7007 121:223917
NXT 
PUB 0 0 0 0
FLAGS false false
VERDICT false
CASE site-arity4-accept
DESC {"name":"dregg-interpgolden-site-arity4-accept","trace_width":186,"public_input_count":4,"constraints":[],"hash_sites":[{"digest_col":122,"arity":4,"inputs":[{"t":"col","c":30},{"t":"col","c":31},{"t":"zero"},{"t":"col","c":32}]}],"ranges":[]}
LOC 30:1 31:2 32:3 122:6496363
NXT 
PUB 0 0 0 0
FLAGS false false
VERDICT true
CASE range-accept
DESC {"name":"dregg-interpgolden-range-accept","trace_width":186,"public_input_count":4,"constraints":[],"hash_sites":[],"ranges":[{"wire":40,"bits":12}]}
LOC 40:4095
NXT 
PUB 0 0 0 0
FLAGS false false
VERDICT true
CASE range-reject-high
DESC {"name":"dregg-interpgolden-range-reject-high","trace_width":186,"public_input_count":4,"constraints":[],"hash_sites":[],"ranges":[{"wire":40,"bits":12}]}
LOC 40:4096
NXT 
PUB 0 0 0 0
FLAGS false false
VERDICT false
CASE range-reject-negative
DESC {"name":"dregg-interpgolden-range-reject-negative","trace_width":186,"public_input_count":4,"constraints":[],"hash_sites":[],"ranges":[{"wire":40,"bits":12}]}
LOC 40:-1
NXT 
PUB 0 0 0 0
FLAGS false false
VERDICT false
CASE combined-accept
DESC {"name":"dregg-interpgolden-combined-accept","trace_width":186,"public_input_count":4,"constraints":[{"t":"gate","body":{"t":"add","l":{"t":"var","v":5},"r":{"t":"mul","l":{"t":"const","v":-1},"r":{"t":"var","v":6}}}},{"t":"transition","hi":3,"lo":5},{"t":"boundary","row":"first","body":{"t":"add","l":{"t":"var","v":100},"r":{"t":"mul","l":{"t":"const","v":-1},"r":{"t":"var","v":101}}}},{"t":"pi_binding","row":"last","col":11,"pi_index":2}],"hash_sites":[{"digest_col":120,"arity":2,"inputs":[{"t":"col","c":30},{"t":"zero"}]}],"ranges":[{"wire":40,"bits":12}]}
LOC 5:42 6:42 81:9 100:5 101:5 11:5 30:9 120:7006 40:4095
NXT 57:9
PUB 0 0 5 0
FLAGS true true
VERDICT true
CASE combined-range-violation-reject
DESC {"name":"dregg-interpgolden-combined-range-violation-reject","trace_width":186,"public_input_count":4,"constraints":[{"t":"gate","body":{"t":"add","l":{"t":"var","v":5},"r":{"t":"mul","l":{"t":"const","v":-1},"r":{"t":"var","v":6}}}},{"t":"transition","hi":3,"lo":5},{"t":"boundary","row":"first","body":{"t":"add","l":{"t":"var","v":100},"r":{"t":"mul","l":{"t":"const","v":-1},"r":{"t":"var","v":101}}}},{"t":"pi_binding","row":"last","col":11,"pi_index":2}],"hash_sites":[{"digest_col":120,"arity":2,"inputs":[{"t":"col","c":30},{"t":"zero"}]}],"ranges":[{"wire":40,"bits":12}]}
LOC 5:42 6:42 81:9 100:5 101:5 11:5 30:9 120:7006 40:4096
NXT 57:9
PUB 0 0 5 0
FLAGS true true
VERDICT false
CASE empty-descriptor-accept
DESC {"name":"dregg-interpgolden-empty-descriptor-accept","trace_width":186,"public_input_count":4,"constraints":[],"hash_sites":[],"ranges":[]}
LOC 
NXT 
PUB 0 0 0 0
FLAGS false false
VERDICT true
"#;

fn z_lookup(pairs: &[(usize, i128)], n: usize) -> i128 {
    pairs.iter().find(|p| p.0 == n).map(|p| p.1).unwrap_or(0)
}

fn toy_hash_z(xs: &[i128]) -> i128 {
    xs.iter().fold(7i128, |a, x| a * 31 + x)
}

fn eval_expr_z(e: &LeanExpr, loc: &[(usize, i128)]) -> i128 {
    match e {
        LeanExpr::Var(i) => z_lookup(loc, *i),
        LeanExpr::Const(c) => *c as i128,
        LeanExpr::Add(a, b) => eval_expr_z(a, loc) + eval_expr_z(b, loc),
        LeanExpr::Mul(a, b) => eval_expr_z(a, loc) * eval_expr_z(b, loc),
    }
}

fn decide_constraint_z(
    loc: &[(usize, i128)],
    nxt: &[(usize, i128)],
    pubs: &[i128],
    is_first: bool,
    is_last: bool,
    c: &VmConstraint,
) -> bool {
    match c {
        VmConstraint::Gate(body) => eval_expr_z(body, loc) == 0,
        VmConstraint::Transition { hi, lo } => {
            z_lookup(nxt, EFFECTVM_STATE_BEFORE_BASE + hi)
                == z_lookup(loc, EFFECTVM_STATE_AFTER_BASE + lo)
        }
        VmConstraint::Boundary {
            row: VmRow::First,
            body,
        } => !is_first || eval_expr_z(body, loc) == 0,
        VmConstraint::Boundary {
            row: VmRow::Last,
            body,
        } => !is_last || eval_expr_z(body, loc) == 0,
        VmConstraint::PiBinding {
            row: VmRow::First,
            col,
            pi_index,
        } => !is_first || z_lookup(loc, *col) == pubs.get(*pi_index).copied().unwrap_or(0),
        VmConstraint::PiBinding {
            row: VmRow::Last,
            col,
            pi_index,
        } => !is_last || z_lookup(loc, *col) == pubs.get(*pi_index).copied().unwrap_or(0),
    }
}

fn decide_sites_z(loc: &[(usize, i128)], sites: &[VmHashSite]) -> bool {
    let mut acc: Vec<i128> = Vec::with_capacity(sites.len());
    for s in sites {
        let inputs: Vec<i128> = s
            .inputs
            .iter()
            .map(|inp| match inp {
                HashInput::Col(c) => z_lookup(loc, *c),
                HashInput::Digest(k) => acc.get(*k).copied().unwrap_or(0),
                HashInput::Zero => 0,
            })
            .collect();
        let d = toy_hash_z(&inputs);
        if z_lookup(loc, s.digest_col) != d {
            return false;
        }
        acc.push(d);
    }
    true
}

fn decide_ranges_z(loc: &[(usize, i128)], ranges: &[RangeSpec]) -> bool {
    ranges.iter().all(|r| {
        let v = z_lookup(loc, r.wire);
        0 <= v && v < (1i128 << r.bits)
    })
}

fn decide_vm_z(
    desc: &EffectVmDescriptor,
    loc: &[(usize, i128)],
    nxt: &[(usize, i128)],
    pubs: &[i128],
    is_first: bool,
    is_last: bool,
) -> bool {
    desc.constraints
        .iter()
        .all(|c| decide_constraint_z(loc, nxt, pubs, is_first, is_last, c))
        && (decide_sites_z(loc, &desc.hash_sites) && decide_ranges_z(loc, &desc.ranges))
}

struct ZGoldenCase {
    name: String,
    desc: EffectVmDescriptor,
    loc: Vec<(usize, i128)>,
    nxt: Vec<(usize, i128)>,
    pubs: Vec<i128>,
    is_first: bool,
    is_last: bool,
    verdict: bool,
}


/// `k:v` pairs.
fn pairs(s: &str) -> Vec<(usize, i128)> {
    s.split_whitespace()
        .map(|kv| {
            let (k, v) = kv.split_once(':').expect("golden pair `k:v`");
            (k.parse().expect("col"), v.parse().expect("val"))
        })
        .collect()
}
/// Whitespace-separated integers.
fn ints(s: &str) -> Vec<i128> {
    s.split_whitespace()
        .map(|x| x.parse().expect("int"))
        .collect()
}
/// `true` or `false`.
fn boolean(s: &str) -> bool {
    match s {
        "true" => true,
        "false" => false,
        other => panic!("golden bool, got {other:?}"),
    }
}

fn parse_golden_corpus(text: &str) -> Vec<ZGoldenCase> {
    let mut out = Vec::new();
    let mut lines = text.lines();
    while let Some(line) = lines.next() {
        let Some(name) = line.strip_prefix("CASE ") else {
            assert!(line.trim().is_empty(), "unexpected golden line {line:?}");
            continue;
        };
        let take = |l: Option<&str>, pfx: &str| -> String {
            l.and_then(|s| s.strip_prefix(pfx))
                .unwrap_or_else(|| panic!("case {name}: expected `{pfx}` line"))
                .to_string()
        };
        let desc_json = take(lines.next(), "DESC ");
        let loc = pairs(&take(lines.next(), "LOC"));
        let nxt = pairs(&take(lines.next(), "NXT"));
        let pubs = ints(&take(lines.next(), "PUB"));
        let flags = take(lines.next(), "FLAGS ");
        let (f, l) = flags.split_once(' ').expect("two flags");
        let verdict = boolean(&take(lines.next(), "VERDICT "));
        let desc = parse_vm_descriptor(&desc_json)
            .unwrap_or_else(|e| panic!("case {name}: descriptor must parse: {e}"));
        assert!(
            desc.check_bounds().is_ok(),
            "case {name}: descriptor must be in-bounds"
        );
        out.push(ZGoldenCase {
            name: name.to_string(),
            desc,
            loc,
            nxt,
            pubs,
            is_first: boolean(f),
            is_last: boolean(l),
            verdict,
        });
    }
    out
}

#[test]
fn lean_decide_vm_golden_corpus_agrees() {
    let cases = parse_golden_corpus(LEAN_DECIDE_VM_GOLDEN);
    assert_eq!(cases.len(), 35, "the pinned corpus size");

    let (mut accepts, mut rejects) = (0usize, 0usize);
    let mut kinds = [0usize; 6];
    let mut flag_combos = [0usize; 4];
    let (mut with_sites, mut with_ranges) = (0usize, 0usize);

    for case in &cases {
        let got = decide_vm_z(
            &case.desc,
            &case.loc,
            &case.nxt,
            &case.pubs,
            case.is_first,
            case.is_last,
        );
        assert_eq!(
            got, case.verdict,
            "case `{}`: Rust decideVm transcription ({got}) disagrees with the \
             Lean-computed verdict ({})",
            case.name, case.verdict
        );

        if case.verdict {
            accepts += 1;
        } else {
            rejects += 1;
        }
        for c in &case.desc.constraints {
            match c {
                VmConstraint::Gate(_) => kinds[0] += 1,
                VmConstraint::Transition { .. } => kinds[1] += 1,
                VmConstraint::Boundary {
                    row: VmRow::First, ..
                } => kinds[2] += 1,
                VmConstraint::Boundary {
                    row: VmRow::Last, ..
                } => kinds[3] += 1,
                VmConstraint::PiBinding {
                    row: VmRow::First, ..
                } => kinds[4] += 1,
                VmConstraint::PiBinding {
                    row: VmRow::Last, ..
                } => kinds[5] += 1,
            }
        }
        flag_combos[(case.is_first as usize) | ((case.is_last as usize) << 1)] += 1;
        if !case.desc.hash_sites.is_empty() {
            with_sites += 1;
        }
        if !case.desc.ranges.is_empty() {
            with_ranges += 1;
        }
    }

    assert!(accepts > 0 && rejects > 0, "both polarities must occur");
    assert!(
        kinds.iter().all(|&k| k > 0),
        "every constraint arm must occur (gate/transition/boundaryF/boundaryL/piF/piL): {kinds:?}"
    );
    assert!(
        flag_combos.iter().all(|&k| k > 0),
        "all four isFirst/isLast settings must occur (incl. the single-row window): {flag_combos:?}"
    );
    assert!(
        with_sites > 0 && with_ranges > 0,
        "hash sites and ranges must occur"
    );
}
