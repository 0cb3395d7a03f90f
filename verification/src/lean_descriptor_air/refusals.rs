//! What the strict decoders let through: every gate coefficient of a decoded
//! descriptor is smaller than `p` in magnitude, and every range check is
//! narrower than the vacuous width.
use vstd::prelude::*;
use super::json::{ws_end, lex_byte, lex_raw_string, lex_int, lex_int_field, abs_int};
use super::{
    LeanExpr, LeanConstraint, RangeSpec, VACUOUS_RANGE_BITS, sp_expr, sp_constraint, sp_range, sp_items,
    sp_array, sp_member, sp_members, sp_descriptor, constraint_item, range_item, 
    spells, DescriptorFields, sp_obj, sp_object, sp_expr_members, expr_of, constraint_member, range_member,
    ExprFields, ConstraintFields, RangeFields,
};
use super::effect_vm::{
    VmConstraint, HashInput, VmFields, sp_vm_constraint, sp_hash_site, sp_vm_member, sp_vm_members,
    sp_vm_descriptor, vm_constraint_item, site_item, or_empty, vm_member, no_vm_fields, site_member,
    VmConstraintFields, SiteFields,
};
use crate::field::BABYBEAR_P;

verus! {

/// Every constant of the expression is smaller than `p` in magnitude.
pub open spec fn consts_in_field(e: LeanExpr) -> bool
    decreases e,
{
    match e {
        LeanExpr::Var(_) => true,
        LeanExpr::Const(c) => abs_int(c as int) < BABYBEAR_P,
        LeanExpr::Add(a, b) => consts_in_field(*a) && consts_in_field(*b),
        LeanExpr::Mul(a, b) => consts_in_field(*a) && consts_in_field(*b),
    }
}

/// Both sides of the constraint hold only constants smaller than `p`.
pub open spec fn constraint_in_field(c: LeanConstraint) -> bool {
    consts_in_field(c.lhs) && consts_in_field(c.rhs)
}

/// The range check refuses something: it is narrower than the vacuous width.
pub open spec fn range_not_vacuous(r: RangeSpec) -> bool {
    r.bits < VACUOUS_RANGE_BITS
}

/// A strictly decoded coefficient is smaller than `p` in magnitude.
pub proof fn lemma_strict_int_field(s: Seq<u8>, i: int)
    ensures
        lex_int_field(s, i, true) matches Some((v, _)) ==> abs_int(v as int) < BABYBEAR_P,
{
}

/// The operands read so far hold only constants smaller than `p`.
pub open spec fn operands_in_field(f: ExprFields) -> bool {
    &&& (f.2 matches Some(l) ==> consts_in_field(l))
    &&& (f.3 matches Some(r) ==> consts_in_field(r))
}

/// Strictly read expression members keep their operands within `p`.
pub proof fn lemma_strict_expr_members(s: Seq<u8>, i: int, f: ExprFields)
    requires
        operands_in_field(f),
    ensures
        sp_expr_members(s, i, f, true) matches Some((g, _)) ==> operands_in_field(g),
    decreases s.len() - i, 1int,
{
    reveal(sp_expr);
    if 0 <= i <= s.len() {
        if let Some((ka, ke)) = lex_raw_string(s, i) {
            if let Some(v) = lex_byte(s, ke + 1, 58) {
                if i < v <= s.len() {
                    lemma_strict_expr(s, v);
                    let m: Option<(ExprFields, int)> = if spells(s, ka, ke, "t"@) && f.0 is None {
                        match lex_raw_string(s, v) {
                            Some((ts, te)) => Some(((Some((ts, te)), f.1, f.2, f.3), te + 1)),
                            None => None,
                        }
                    } else if spells(s, ka, ke, "v"@) && f.1 is None {
                        if super::json::int_digits_end(s, v) == super::json::int_digits_start(s, v) {
                            None
                        } else {
                            Some(((f.0, Some(v), f.2, f.3), super::json::int_digits_end(s, v)))
                        }
                    } else if spells(s, ka, ke, "l"@) && f.2 is None {
                        match sp_expr(s, v, true) {
                            Some((e, p)) => Some(((f.0, f.1, Some(e), f.3), p)),
                            None => None,
                        }
                    } else if spells(s, ka, ke, "r"@) && f.3 is None {
                        match sp_expr(s, v, true) {
                            Some((e, p)) => Some(((f.0, f.1, f.2, Some(e)), p)),
                            None => None,
                        }
                    } else {
                        None
                    };
                    if let Some((g, p)) = m {
                        assert(operands_in_field(g));
                        let k = ws_end(s, p);
                        if 0 <= k < s.len() && s[k] == 44 && i < k + 1 <= s.len() {
                            lemma_strict_expr_members(s, k + 1, g);
                        }
                    }
                }
            }
        }
    }
}

/// A strictly decoded expression holds only constants smaller than `p`.
pub proof fn lemma_strict_expr(s: Seq<u8>, i: int)
    ensures
        sp_expr(s, i, true) matches Some((e, _)) ==> consts_in_field(e),
    decreases s.len() - i, 0int,
{
    reveal(sp_expr);
    if 0 <= i <= s.len() {
        if let Some(a) = lex_byte(s, i, 123) {
            if i < a <= s.len() {
                lemma_strict_expr_members(s, a, (None, None, None, None));
                if let Some((f, p)) = sp_expr_members(s, a, (None, None, None, None), true) {
                    if let Some(d) = f.1 {
                        lemma_strict_int_field(s, d);
                    }
                }
            }
        }
    }
}

/// An object's members keep a property of the record when each member
/// does.
pub proof fn lemma_obj_keeps<F>(
    s: Seq<u8>,
    i: int,
    f: F,
    member: spec_fn(Seq<u8>, int, int, int, F) -> Option<(F, int)>,
    inv: spec_fn(F) -> bool,
)
    requires
        inv(f),
        forall|ka: int, ke: int, v: int, g: F|
            inv(g) ==> ((#[trigger] member(s, ka, ke, v, g)) matches Some((h, _)) ==> inv(h)),
    ensures
        sp_obj(s, i, f, member) matches Some((g, _)) ==> inv(g),
    decreases s.len() - i,
{
    if 0 <= i <= s.len() {
        if let Some((ka, ke)) = lex_raw_string(s, i) {
            if let Some(v) = lex_byte(s, ke + 1, 58) {
                if let Some((g, p)) = member(s, ka, ke, v, f) {
                    let k = ws_end(s, p);
                    if 0 <= k < s.len() && s[k] == 44 && i < k + 1 <= s.len() {
                        lemma_obj_keeps(s, k + 1, g, member, inv);
                    }
                }
            }
        }
    }
}

/// Both sides read so far hold only constants smaller than `p`.
pub open spec fn sides_in_field(f: ConstraintFields) -> bool {
    &&& (f.0 matches Some(l) ==> consts_in_field(l))
    &&& (f.1 matches Some(r) ==> consts_in_field(r))
}

/// A strictly decoded constraint holds only constants smaller than `p`.
pub proof fn lemma_strict_constraint(s: Seq<u8>, q: int)
    ensures
        sp_constraint(s, q, true) matches Some((x, _)) ==> constraint_in_field(x),
{
    reveal(sp_constraint);
    let m = constraint_member(true);
    let inv = |f: ConstraintFields| sides_in_field(f);
    assert forall|ka: int, ke: int, v: int, g: ConstraintFields|
        inv(g) implies ((#[trigger] m(s, ka, ke, v, g)) matches Some((h, _)) ==> inv(h)) by {
        lemma_strict_expr(s, v);
    }
    if let Some(a) = lex_byte(s, q, 123) {
        lemma_obj_keeps(s, a, (None, None), m, inv);
    }
}

/// A decoded range check is narrower than the vacuous width.
pub proof fn lemma_range_not_vacuous(s: Seq<u8>, q: int)
    ensures
        sp_range(s, q) matches Some((x, _)) ==> range_not_vacuous(x),
{
    reveal(sp_range);
    let m = range_member();
    let inv = |f: RangeFields| f.1 matches Some(b) ==> 0 <= b && (b as usize) < VACUOUS_RANGE_BITS;
    assert forall|ka: int, ke: int, v: int, g: RangeFields|
        inv(g) implies ((#[trigger] m(s, ka, ke, v, g)) matches Some((h, _)) ==> inv(h)) by {
    }
    if let Some(a) = lex_byte(s, q, 123) {
        lemma_obj_keeps(s, a, (None, None), m, inv);
    }
}

/// Every element of an array holds `pred` when every element the grammar
/// can read does.
pub proof fn lemma_items_all<T>(
    s: Seq<u8>,
    p: int,
    item: spec_fn(Seq<u8>, int) -> Option<(T, int)>,
    pred: spec_fn(T) -> bool,
)
    requires
        forall|q: int| (#[trigger] item(s, q)) matches Some((x, _)) ==> pred(x),
    ensures
        sp_items(s, p, item) matches Some((xs, _)) ==> forall|k: int| 0 <= k < xs.len() ==> pred(#[trigger] xs[k]),
    decreases s.len() - p,
{
    if 0 <= p <= s.len() {
        if let Some((x, q)) = item(s, p) {
            let k = ws_end(s, q);
            if 0 <= k < s.len() && s[k] == 44 && p < k + 1 <= s.len() {
                lemma_items_all(s, k + 1, item, pred);
                if let Some((xs, e)) = sp_items(s, k + 1, item) {
                    let all = seq![x] + xs;
                    assert forall|j: int| 0 <= j < all.len() implies pred(#[trigger] all[j]) by {
                        if j > 0 {
                            assert(all[j] == xs[j - 1]);
                        }
                    }
                }
            }
        }
    }
}

/// The same for an array with its brackets.
pub proof fn lemma_array_all<T>(
    s: Seq<u8>,
    i: int,
    item: spec_fn(Seq<u8>, int) -> Option<(T, int)>,
    pred: spec_fn(T) -> bool,
)
    requires
        forall|q: int| (#[trigger] item(s, q)) matches Some((x, _)) ==> pred(x),
    ensures
        sp_array(s, i, item) matches Some((xs, _)) ==> forall|k: int| 0 <= k < xs.len() ==> pred(#[trigger] xs[k]),
{
    if let Some(a) = lex_byte(s, i, 91) {
        lemma_items_all(s, ws_end(s, a), item, pred);
    }
}

/// The constraints and ranges read so far obey the strict rules.
pub open spec fn fields_in_field(f: DescriptorFields) -> bool {
    &&& (f.2 matches Some(cs) ==> forall|k: int| 0 <= k < cs.len() ==> constraint_in_field(#[trigger] cs[k]))
    &&& (f.3 matches Some(rs) ==> forall|k: int| 0 <= k < rs.len() ==> range_not_vacuous(#[trigger] rs[k]))
}

/// Strictly decoded constraint and range arrays obey the rules.
proof fn lemma_strict_arrays(s: Seq<u8>, v: int)
    ensures
        sp_array(s, v, constraint_item(true)) matches Some((cs, _)) ==> forall|k: int|
            0 <= k < cs.len() ==> constraint_in_field(#[trigger] cs[k]),
        sp_array(s, v, range_item()) matches Some((rs, _)) ==> forall|k: int| 0 <= k < rs.len() ==> range_not_vacuous(
            #[trigger] rs[k],
        ),
{
    reveal(sp_constraint);
    reveal(sp_range);
    let cp = |c: LeanConstraint| constraint_in_field(c);
    let rp = |r: RangeSpec| range_not_vacuous(r);
    assert forall|q: int| ((#[trigger] constraint_item(true)(s, q)) matches Some((x, _)) ==> cp(x)) by {
        lemma_strict_constraint(s, q);
    }
    assert forall|q: int| ((#[trigger] range_item()(s, q)) matches Some((x, _)) ==> rp(x)) by {
        lemma_range_not_vacuous(s, q);
    }
    lemma_array_all(s, v, constraint_item(true), cp);
    lemma_array_all(s, v, range_item(), rp);
}

/// Reading more members keeps the fields within the strict rules.
proof fn lemma_strict_members(s: Seq<u8>, i: int, f: DescriptorFields)
    requires
        fields_in_field(f),
    ensures
        sp_members(s, i, f, true) matches Some((g, _)) ==> fields_in_field(g),
    decreases s.len() - i,
{
    if 0 <= i <= s.len() {
        if let Some((ka, ke)) = lex_raw_string(s, i) {
            if let Some(v) = lex_byte(s, ke + 1, 58) {
                lemma_strict_arrays(s, v);
                if let Some((g, p)) = sp_member(s, ka, ke, v, f, true) {
                    assert(fields_in_field(g));
                    let k = ws_end(s, p);
                    if 0 <= k < s.len() && s[k] == 44 && i < k + 1 <= s.len() {
                        lemma_strict_members(s, k + 1, g);
                    }
                }
            }
        }
    }
}

/// **A strictly decoded descriptor is sound at BabyBear**: every gate
/// coefficient is smaller than `p` in magnitude, so no constant is folded
/// modulo `p`, and every range check is narrower than 31 bits, so each one
/// refuses some field element.
pub proof fn lemma_decoded_descriptor_in_field(s: Seq<u8>)
    ensures
        sp_descriptor(s, true) matches Some((_, _, cs, rs)) ==> (forall|k: int| 0 <= k < cs.len() ==> constraint_in_field(#[trigger] cs[k]))
            && (forall|k: int| 0 <= k < rs.len() ==> range_not_vacuous(#[trigger] rs[k])),
{
    if let Some(a) = lex_byte(s, 0, 123) {
        lemma_strict_members(s, a, (None, None, None, None));
    }
}

/// A gate or boundary body holds only constants smaller than `p`.
pub open spec fn vm_constraint_in_field(c: VmConstraint) -> bool {
    match c {
        VmConstraint::Gate(body) => consts_in_field(body),
        VmConstraint::Boundary { row: _, body } => consts_in_field(body),
        _ => true,
    }
}

/// A hash site absorbs two or four inputs.
pub open spec fn site_arity_ok(x: (usize, usize, Seq<HashInput>)) -> bool {
    x.1 == 2 || x.1 == 4
}

/// The members of an EffectVM descriptor read so far obey the strict rules.
pub open spec fn vm_fields_in_field(f: VmFields) -> bool {
    &&& (f.3 matches Some(cs) ==> forall|k: int| 0 <= k < cs.len() ==> vm_constraint_in_field(#[trigger] cs[k]))
    &&& (f.4 matches Some(hs) ==> forall|k: int| 0 <= k < hs.len() ==> site_arity_ok(#[trigger] hs[k]))
    &&& (f.5 matches Some(rs) ==> forall|k: int| 0 <= k < rs.len() ==> range_not_vacuous(#[trigger] rs[k]))
}

/// Strictly decoded EffectVM arrays obey the rules.
proof fn lemma_strict_vm_arrays(s: Seq<u8>, v: int)
    ensures
        sp_array(s, v, vm_constraint_item(true)) matches Some((cs, _)) ==> forall|k: int|
            0 <= k < cs.len() ==> vm_constraint_in_field(#[trigger] cs[k]),
        sp_array(s, v, site_item()) matches Some((hs, _)) ==> forall|k: int| 0 <= k < hs.len() ==> site_arity_ok(
            #[trigger] hs[k],
        ),
        sp_array(s, v, range_item()) matches Some((rs, _)) ==> forall|k: int| 0 <= k < rs.len() ==> range_not_vacuous(
            #[trigger] rs[k],
        ),
{
    reveal(sp_vm_constraint);
    reveal(sp_hash_site);
    reveal(sp_range);
    let cp = |c: VmConstraint| vm_constraint_in_field(c);
    let hp = |x: (usize, usize, Seq<HashInput>)| site_arity_ok(x);
    let rp = |r: RangeSpec| range_not_vacuous(r);
    assert forall|q: int| ((#[trigger] vm_constraint_item(true)(s, q)) matches Some((x, _)) ==> cp(x)) by {
        lemma_strict_vm_constraint(s, q);
    }
    assert forall|q: int| ((#[trigger] site_item()(s, q)) matches Some((x, _)) ==> hp(x)) by {
        lemma_site_arity(s, q);
    }
    assert forall|q: int| ((#[trigger] range_item()(s, q)) matches Some((x, _)) ==> rp(x)) by {
        lemma_range_not_vacuous(s, q);
    }
    lemma_array_all(s, v, vm_constraint_item(true), cp);
    lemma_array_all(s, v, site_item(), hp);
    lemma_array_all(s, v, range_item(), rp);
}

/// Reading more members keeps the EffectVM fields within the strict rules.
proof fn lemma_strict_vm_members(s: Seq<u8>, i: int, f: VmFields)
    requires
        vm_fields_in_field(f),
    ensures
        sp_vm_members(s, i, f, true) matches Some((g, _)) ==> vm_fields_in_field(g),
    decreases s.len() - i,
{
    if 0 <= i <= s.len() {
        if let Some((ka, ke)) = lex_raw_string(s, i) {
            if let Some(v) = lex_byte(s, ke + 1, 58) {
                lemma_strict_vm_arrays(s, v);
                if let Some((g, p)) = sp_vm_member(s, ka, ke, v, f, true) {
                    assert(vm_fields_in_field(g));
                    let k = ws_end(s, p);
                    if 0 <= k < s.len() && s[k] == 44 && i < k + 1 <= s.len() {
                        lemma_strict_vm_members(s, k + 1, g);
                    }
                }
            }
        }
    }
}

/// **A strictly decoded EffectVM descriptor is sound at BabyBear**: every
/// gate and boundary coefficient is smaller than `p` in magnitude, every
/// hash site absorbs two or four inputs, and every range check is narrower
/// than 31 bits.
pub proof fn lemma_decoded_vm_descriptor_in_field(s: Seq<u8>)
    ensures
        sp_vm_descriptor(s, true) matches Some(f) ==> (forall|k: int| 0 <= k < or_empty(f.3).len() ==> vm_constraint_in_field(
            #[trigger] or_empty(f.3)[k],
        )) && (forall|k: int| 0 <= k < or_empty(f.4).len() ==> site_arity_ok(#[trigger] or_empty(f.4)[k])) && (forall|k: int|
            0 <= k < or_empty(f.5).len() ==> range_not_vacuous(#[trigger] or_empty(f.5)[k])),
{
    if let Some(a) = lex_byte(s, 0, 123) {
        lemma_strict_vm_members(s, a, (None, None, None, None, None, None));
    }
}

/// A strictly decoded EffectVM constraint holds only constants smaller
/// than `p`.
pub proof fn lemma_strict_vm_constraint(s: Seq<u8>, q: int)
    ensures
        sp_vm_constraint(s, q, true) matches Some((x, _)) ==> vm_constraint_in_field(x),
{
    reveal(sp_vm_constraint);
    let m = vm_member(true);
    let inv = |f: VmConstraintFields| f.1 matches Some(b) ==> consts_in_field(b);
    assert forall|ka: int, ke: int, v: int, g: VmConstraintFields|
        inv(g) implies ((#[trigger] m(s, ka, ke, v, g)) matches Some((h, _)) ==> inv(h)) by {
        lemma_strict_expr(s, v);
    }
    if let Some(a) = lex_byte(s, q, 123) {
        lemma_obj_keeps(s, a, no_vm_fields(), m, inv);
    }
}

/// A decoded hash site absorbs two or four inputs.
pub proof fn lemma_site_arity(s: Seq<u8>, q: int)
    ensures
        sp_hash_site(s, q) matches Some((x, _)) ==> site_arity_ok(x),
{
    reveal(sp_hash_site);
    let m = site_member();
    let inv = |f: SiteFields| f.1 matches Some(a) ==> (a == 2 || a == 4);
    assert forall|ka: int, ke: int, v: int, g: SiteFields|
        inv(g) implies ((#[trigger] m(s, ka, ke, v, g)) matches Some((h, _)) ==> inv(h)) by {
    }
    if let Some(a) = lex_byte(s, q, 123) {
        lemma_obj_keeps(s, a, (None, None, None), m, inv);
    }
}

} // verus!
