//! Depth-general binary Poseidon2 Merkle membership: the root a leaf and an
//! authentication path imply, and the one-level-per-row witness trace.
//!
//! Row layout (one binary Merkle level per row, width 13): `cur`, `sib`,
//! `dir` (1: `cur` is the right child), the ordered `left` and `right`
//! children, the parent digest `par` (lane 0 of the arity-2 absorb), and the
//! seven further absorb lanes. The public inputs are `[leaf, root]`.
use vstd::prelude::*;
use crate::field::{BabyBear, BABYBEAR_P};
use crate::lean_descriptor_air::{expr_value, LeanExpr, RangeSpec, VmConstraint, VmHashSite, VmRow};
use crate::poseidon2::CHIP_RATE;
use crate::text::decimal_spec;
use crate::poseidon2::{chip_absorb_all_lanes, spec_absorb, CHIP_OUT_LANES};
use crate::ivc::{is_power_of_two, usize_is_power_of_two};
use crate::text::decimal;

verus! {

/// Running hash (row 0 = leaf).
pub const CUR: usize = 0;

/// Sibling at this level.
pub const SIB: usize = 1;

/// Direction bit (1: `cur` is the right child).
pub const DIR: usize = 2;

/// Ordered left child.
pub const LEFT: usize = 3;

/// Ordered right child.
pub const RIGHT: usize = 4;

/// Parent digest (absorb lane 0).
pub const PAR: usize = 5;

/// First of the seven further absorb lanes of the parent.
pub const LANE_BASE: usize = 6;

/// Main-trace width: six semantic columns and seven lanes.
pub const MEMBERSHIP_GENERAL_WIDTH: usize = 13;

/// PI slot: the membership leaf.
pub const PI_LEAF: usize = 0;

/// PI slot: the committed root.
pub const PI_ROOT: usize = 1;

/// Public-input count.
pub const MEMBERSHIP_GENERAL_PI_COUNT: usize = 2;

/// One authentication step: the sibling at this level, and whether the
/// running hash is the right child.
#[derive(Clone, Copy, Debug)]
pub struct MembershipStep {
    /// The sibling digest.
    pub sibling: BabyBear,
    /// `true`: the running hash is the right child.
    pub dir: bool,
}

/// The ordered `(left, right)` pair of a step over the running hash.
pub open spec fn ordered(cur: BabyBear, step: MembershipStep) -> (BabyBear, BabyBear) {
    if step.dir {
        (step.sibling, cur)
    } else {
        (cur, step.sibling)
    }
}

/// The eight lanes of the arity-2 absorb of an ordered pair.
pub open spec fn step_lanes(cur: BabyBear, step: MembershipStep) -> Seq<BabyBear> {
    spec_absorb(seq![ordered(cur, step).0, ordered(cur, step).1])
}

/// The running hash after the first `k` steps of the path.
pub open spec fn spec_membership_root(leaf: BabyBear, path: Seq<MembershipStep>, k: nat) -> BabyBear
    decreases k,
{
    if k == 0 {
        leaf
    } else {
        let cur = spec_membership_root(leaf, path, (k - 1) as nat);
        step_lanes(cur, path[k - 1])[0]
    }
}

/// The trace row of one step over the running hash `cur`.
pub open spec fn general_row(cur: BabyBear, step: MembershipStep) -> Seq<BabyBear> {
    seq![
        cur,
        step.sibling,
        if step.dir {
            BabyBear::from_spec(1)
        } else {
            BabyBear::from_spec(0)
        },
        ordered(cur, step).0,
        ordered(cur, step).1,
    ] + step_lanes(cur, step)
}

/// The arity-2 absorb of `(left, right)`, all eight lanes (lane 0 is the digest).
fn chip2(left: BabyBear, right: BabyBear) -> (r: [BabyBear; 8])
    ensures
        r@ == spec_absorb(seq![left, right]),
{
    let ins = [left, right];
    assert(ins@ =~= seq![left, right]);
    chip_absorb_all_lanes(2, ins.as_slice())
}

/// **The root** a leaf and an authentication path imply.
pub fn membership_root(leaf: BabyBear, path: &[MembershipStep]) -> (r: BabyBear)
    ensures
        r == spec_membership_root(leaf, path@, path@.len()),
{
    let mut cur = leaf;
    let mut i: usize = 0;
    while i < path.len()
        invariant
            i <= path@.len(),
            cur == spec_membership_root(leaf, path@, i as nat),
        decreases path@.len() - i,
    {
        let step = path[i];
        let (l, r) = if step.dir {
            (step.sibling, cur)
        } else {
            (cur, step.sibling)
        };
        cur = chip2(l, r)[0];
        i = i + 1;
    }
    cur
}

/// **The membership witness**: one row per level and the public inputs
/// `[leaf, root]`; refused unless the depth is a power of two, at least 2.
pub fn membership_witness(leaf: BabyBear, path: &[MembershipStep]) -> (r: Result<(Vec<Vec<BabyBear>>, Vec<BabyBear>), String>)
    ensures
        r is Ok <==> (path@.len() >= 2 && is_power_of_two(path@.len())),
        r matches Ok(w) ==> w.0@.len() == path@.len()
            && (forall|i: int| 0 <= i < path@.len() ==> (#[trigger] w.0@[i])@ == general_row(
                spec_membership_root(leaf, path@, i as nat),
                path@[i],
            ))
            && w.1@ == seq![leaf, spec_membership_root(leaf, path@, path@.len())],
{
    let depth = path.len();
    if depth < 2 || !usize_is_power_of_two(depth) {
        let mut m = String::from_str("membership depth ");
        let d = decimal(depth as u64);
        m.append(d.as_str());
        m.append(" must be a power of two ≥ 2 (the trace-height requirement)");
        return Err(m);
    }
    let mut trace: Vec<Vec<BabyBear>> = Vec::new();
    let mut cur = leaf;
    let mut i: usize = 0;
    while i < depth
        invariant
            depth == path@.len(),
            i <= depth,
            trace@.len() == i,
            cur == spec_membership_root(leaf, path@, i as nat),
            forall|j: int| 0 <= j < i ==> (#[trigger] trace@[j])@ == general_row(
                spec_membership_root(leaf, path@, j as nat),
                path@[j],
            ),
        decreases depth - i,
    {
        let step = path[i];
        let (left, right) = if step.dir {
            (step.sibling, cur)
        } else {
            (cur, step.sibling)
        };
        let lanes = chip2(left, right);
        let par = lanes[0];
        let mut row: Vec<BabyBear> = Vec::new();
        row.push(cur);
        row.push(step.sibling);
        row.push(if step.dir { BabyBear::one() } else { BabyBear::zero() });
        row.push(left);
        row.push(right);
        let mut j: usize = 0;
        while j < CHIP_OUT_LANES
            invariant
                j <= 8,
                row@.len() == 5 + j,
                forall|k: int| 0 <= k < 5 ==> #[trigger] row@[k] == general_row(cur, step)[k],
                forall|k: int| 0 <= k < j ==> #[trigger] row@[5 + k] == lanes@[k],
            decreases 8 - j,
        {
            row.push(lanes[j]);
            j = j + 1;
        }
        assert(ordered(cur, step) == (left, right));
        assert(step_lanes(cur, step) == lanes@);
        assert forall|k: int| 0 <= k < 13 implies #[trigger] row@[k] == general_row(cur, step)[k] by {
            if k >= 5 {
                assert(row@[5 + (k - 5)] == lanes@[k - 5]);
            }
        }
        assert(row@ =~= general_row(cur, step));
        trace.push(row);
        cur = par;
        i = i + 1;
    }
    let mut pis: Vec<BabyBear> = Vec::new();
    pis.push(leaf);
    pis.push(cur);
    assert(pis@ =~= seq![leaf, spec_membership_root(leaf, path@, path@.len())]);
    Ok((trace, pis))
}

// ---------------------------------------------------------------------------
// The per-row gates
// ---------------------------------------------------------------------------

/// `-1 * e`.
pub open spec fn negated(e: LeanExpr) -> LeanExpr {
    LeanExpr::Mul(Box::new(LeanExpr::Const(-1i64)), Box::new(e))
}

/// The direction gate, `dir * (dir - 1)`.
pub open spec fn dir_binary_gate() -> LeanExpr {
    LeanExpr::Mul(
        Box::new(LeanExpr::Var(DIR)),
        Box::new(LeanExpr::Add(Box::new(LeanExpr::Var(DIR)), Box::new(LeanExpr::Const(-1i64)))),
    )
}

/// The left ordering gate, `left - cur - dir * sib + dir * cur`.
pub open spec fn left_order_gate() -> LeanExpr {
    LeanExpr::Add(
        Box::new(LeanExpr::Var(LEFT)),
        Box::new(LeanExpr::Add(
            Box::new(negated(LeanExpr::Var(CUR))),
            Box::new(LeanExpr::Add(
                Box::new(negated(LeanExpr::Mul(Box::new(LeanExpr::Var(DIR)), Box::new(LeanExpr::Var(SIB))))),
                Box::new(LeanExpr::Mul(Box::new(LeanExpr::Var(DIR)), Box::new(LeanExpr::Var(CUR)))),
            )),
        )),
    )
}

/// The right ordering gate, `right - sib - dir * cur + dir * sib`.
pub open spec fn right_order_gate() -> LeanExpr {
    LeanExpr::Add(
        Box::new(LeanExpr::Var(RIGHT)),
        Box::new(LeanExpr::Add(
            Box::new(negated(LeanExpr::Var(SIB))),
            Box::new(LeanExpr::Add(
                Box::new(negated(LeanExpr::Mul(Box::new(LeanExpr::Var(DIR)), Box::new(LeanExpr::Var(CUR))))),
                Box::new(LeanExpr::Mul(Box::new(LeanExpr::Var(DIR)), Box::new(LeanExpr::Var(SIB)))),
            )),
        )),
    )
}

/// `-1 * e`.
pub fn neg(e: LeanExpr) -> (r: LeanExpr)
    ensures
        r == negated(e),
{
    LeanExpr::mul(LeanExpr::Const(-1i64), e)
}

/// The `dir ∈ {0, 1}` gate body.
pub fn dir_binary_body() -> (r: LeanExpr)
    ensures
        r == dir_binary_gate(),
{
    LeanExpr::mul(LeanExpr::Var(DIR), LeanExpr::add(LeanExpr::Var(DIR), LeanExpr::Const(-1i64)))
}

/// The ordered-left gate body.
pub fn left_order_body() -> (r: LeanExpr)
    ensures
        r == left_order_gate(),
{
    LeanExpr::add(
        LeanExpr::Var(LEFT),
        LeanExpr::add(
            neg(LeanExpr::Var(CUR)),
            LeanExpr::add(
                neg(LeanExpr::mul(LeanExpr::Var(DIR), LeanExpr::Var(SIB))),
                LeanExpr::mul(LeanExpr::Var(DIR), LeanExpr::Var(CUR)),
            ),
        ),
    )
}

/// The ordered-right gate body.
pub fn right_order_body() -> (r: LeanExpr)
    ensures
        r == right_order_gate(),
{
    LeanExpr::add(
        LeanExpr::Var(RIGHT),
        LeanExpr::add(
            neg(LeanExpr::Var(SIB)),
            LeanExpr::add(
                neg(LeanExpr::mul(LeanExpr::Var(DIR), LeanExpr::Var(CUR))),
                LeanExpr::mul(LeanExpr::Var(DIR), LeanExpr::Var(SIB)),
            ),
        ),
    )
}

/// `(p - 1) * x mod p` is the field negation of a canonical `x`.
proof fn lemma_neg_value(x: int)
    requires
        0 <= x < BABYBEAR_P as int,
    ensures
        ((BABYBEAR_P as int - 1) * x) % (BABYBEAR_P as int) == (if x == 0 { 0 } else { BABYBEAR_P as int - x }),
{
    let p = BABYBEAR_P as int;
    if x != 0 {
        assert((p - 1) * x == p * (x - 1) + (p - x)) by (nonlinear_arith);
        vstd::arithmetic::div_mod::lemma_mod_multiples_vanish(x - 1, p - x, p);
        vstd::arithmetic::div_mod::lemma_small_mod((p - x) as nat, p as nat);
    }
}

/// The constant `-1` reads as `p - 1`.
proof fn lemma_minus_one()
    ensures
        (-1int) % (BABYBEAR_P as int) == BABYBEAR_P as int - 1,
{
    let p = BABYBEAR_P as int;
    vstd::arithmetic::div_mod::lemma_mod_multiples_vanish(-1, p - 1, p);
    vstd::arithmetic::div_mod::lemma_small_mod((p - 1) as nat, p as nat);
}

/// A canonical row: its five semantic cells hold representatives in `[0, p)`.
pub open spec fn canonical_cells(row: Seq<BabyBear>) -> bool {
    &&& row.len() >= 5
    &&& forall|k: int| 0 <= k < 5 ==> (#[trigger] row[k]).value() < BABYBEAR_P
}

/// **The direction gate admits both directions**: on a row whose `dir`
/// cell is `0` or `1`, `dir * (dir - 1)` vanishes.
pub proof fn lemma_dir_gate_admits_bits(row: Seq<BabyBear>)
    requires
        row.len() >= 5,
        row[DIR as int].value() == 0 || row[DIR as int].value() == 1,
    ensures
        expr_value(dir_binary_gate(), row) == 0,
{
    reveal_with_fuel(expr_value, 3);
    lemma_minus_one();
    let p = BABYBEAR_P as int;
    let d = row[DIR as int].value() as int;
    assert(expr_value(LeanExpr::Const(-1i64), row) == p - 1);
    assert(expr_value(LeanExpr::Var(DIR), row) == d);
    if d == 1 {
        vstd::arithmetic::div_mod::lemma_mod_self_0(p);
    }
}

/// The ordering gate's value `x - a - d * b + d * a (mod p)`, for canonical
/// `x`, `a`, `b` and a binary `d`, vanishes exactly when `x` is `b` for
/// `d = 1` and `a` for `d = 0`.
proof fn lemma_order_value(x: int, a: int, b: int, d: int)
    requires
        0 <= x < BABYBEAR_P as int,
        0 <= a < BABYBEAR_P as int,
        0 <= b < BABYBEAR_P as int,
        d == 0 || d == 1,
    ensures
        ({
            let p = BABYBEAR_P as int;
            let na = ((p - 1) * a) % p;
            let ndb = ((p - 1) * ((d * b) % p)) % p;
            let da = (d * a) % p;
            (x + (na + (ndb + da) % p) % p) % p == 0 <==> x == (if d == 1 { b } else { a })
        }),
{
    let p = BABYBEAR_P as int;
    lemma_neg_value(a);
    lemma_neg_value(b);
    lemma_neg_value(0);
    if d == 0 {
        assert(d * b == 0 && d * a == 0) by (nonlinear_arith)
            requires
                d == 0,
        ;
    } else {
        assert(d * b == b && d * a == a) by (nonlinear_arith)
            requires
                d == 1,
        ;
        vstd::arithmetic::div_mod::lemma_small_mod(a as nat, p as nat);
        vstd::arithmetic::div_mod::lemma_small_mod(b as nat, p as nat);
    }
}

/// The value of an ordering gate over columns `x`, `a`, `b` of a row.
proof fn lemma_order_gate_shape(row: Seq<BabyBear>, g: LeanExpr, x: usize, a: usize, b: usize)
    requires
        g == LeanExpr::Add(
            Box::new(LeanExpr::Var(x)),
            Box::new(LeanExpr::Add(
                Box::new(negated(LeanExpr::Var(a))),
                Box::new(LeanExpr::Add(
                    Box::new(negated(LeanExpr::Mul(Box::new(LeanExpr::Var(DIR)), Box::new(LeanExpr::Var(b))))),
                    Box::new(LeanExpr::Mul(Box::new(LeanExpr::Var(DIR)), Box::new(LeanExpr::Var(a)))),
                )),
            )),
        ),
    ensures
        ({
            let p = BABYBEAR_P as int;
            let xv = row[x as int].value() as int;
            let av = row[a as int].value() as int;
            let bv = row[b as int].value() as int;
            let d = row[DIR as int].value() as int;
            expr_value(g, row) == (xv + (((p - 1) * av) % p + (((p - 1) * ((d * bv) % p)) % p + (d * av) % p) % p) % p) % p
        }),
{
    lemma_minus_one();
    let p = BABYBEAR_P as int;
    let d = row[DIR as int].value() as int;
    let av = row[a as int].value() as int;
    let bv = row[b as int].value() as int;
    let m_one = LeanExpr::Const(-1i64);
    let db = LeanExpr::Mul(Box::new(LeanExpr::Var(DIR)), Box::new(LeanExpr::Var(b)));
    let da = LeanExpr::Mul(Box::new(LeanExpr::Var(DIR)), Box::new(LeanExpr::Var(a)));
    assert(expr_value(m_one, row) == p - 1);
    assert(expr_value(LeanExpr::Var(a), row) == av);
    assert(expr_value(negated(LeanExpr::Var(a)), row) == ((p - 1) * av) % p);
    assert(expr_value(LeanExpr::Var(DIR), row) == d);
    assert(expr_value(LeanExpr::Var(b), row) == bv);
    assert(expr_value(db, row) == (d * bv) % p);
    assert(expr_value(da, row) == (d * av) % p);
    assert(expr_value(negated(db), row) == ((p - 1) * ((d * bv) % p)) % p);
    let inner3 = LeanExpr::Add(Box::new(negated(db)), Box::new(da));
    let v3 = (((p - 1) * ((d * bv) % p)) % p + (d * av) % p) % p;
    assert(expr_value(inner3, row) == v3);
    let inner2 = LeanExpr::Add(Box::new(negated(LeanExpr::Var(a))), Box::new(inner3));
    let v2 = (((p - 1) * av) % p + v3) % p;
    assert(expr_value(inner2, row) == v2);
    assert(g == LeanExpr::Add(Box::new(LeanExpr::Var(x)), Box::new(inner2)));
    assert(expr_value(LeanExpr::Var(x), row) == row[x as int].value() as int);
    assert(expr_value(g, row) == (row[x as int].value() as int + v2) % p);
}

/// **The ordering gates fix the children**: on a canonical row with a
/// binary `dir`, the left gate vanishes exactly when `left` is `sib` for
/// `dir = 1` and `cur` for `dir = 0`, and the right gate exactly when
/// `right` is the other one.
pub proof fn lemma_order_gates_fix_children(row: Seq<BabyBear>)
    requires
        canonical_cells(row),
        row[DIR as int].value() == 0 || row[DIR as int].value() == 1,
    ensures
        (expr_value(left_order_gate(), row) == 0) <==> row[LEFT as int] == (if row[DIR as int].value() == 1 {
            row[SIB as int]
        } else {
            row[CUR as int]
        }),
        (expr_value(right_order_gate(), row) == 0) <==> row[RIGHT as int] == (if row[DIR as int].value() == 1 {
            row[CUR as int]
        } else {
            row[SIB as int]
        }),
{
    let c = row[CUR as int].value() as int;
    let s = row[SIB as int].value() as int;
    let d = row[DIR as int].value() as int;
    assert(row[0].value() < BABYBEAR_P && row[1].value() < BABYBEAR_P);
    assert(row[3].value() < BABYBEAR_P && row[4].value() < BABYBEAR_P);
    lemma_order_gate_shape(row, left_order_gate(), LEFT, CUR, SIB);
    lemma_order_gate_shape(row, right_order_gate(), RIGHT, SIB, CUR);
    lemma_order_value(row[LEFT as int].value() as int, c, s, d);
    lemma_order_value(row[RIGHT as int].value() as int, s, c, d);
    BabyBear::lemma_value_injective(row[LEFT as int], row[SIB as int]);
    BabyBear::lemma_value_injective(row[LEFT as int], row[CUR as int]);
    BabyBear::lemma_value_injective(row[RIGHT as int], row[SIB as int]);
    BabyBear::lemma_value_injective(row[RIGHT as int], row[CUR as int]);
}

/// **Honest rows satisfy the row gates**: on the trace row of any step over
/// any canonical running hash and sibling, the direction gate and both
/// ordering gates vanish.
pub proof fn lemma_honest_row_satisfies_gates(cur: BabyBear, step: MembershipStep)
    requires
        cur.value() < BABYBEAR_P,
        step.sibling.value() < BABYBEAR_P,
    ensures
        expr_value(dir_binary_gate(), general_row(cur, step)) == 0,
        expr_value(left_order_gate(), general_row(cur, step)) == 0,
        expr_value(right_order_gate(), general_row(cur, step)) == 0,
{
    let row = general_row(cur, step);
    BabyBear::lemma_from_spec_value(0);
    BabyBear::lemma_from_spec_value(1);
    assert(row[0] == cur && row[1] == step.sibling);
    assert(row[3] == ordered(cur, step).0 && row[4] == ordered(cur, step).1);
    assert(canonical_cells(row)) by {
        assert forall|k: int| 0 <= k < 5 implies (#[trigger] row[k]).value() < BABYBEAR_P by {
            assert(row[k] == seq![cur, step.sibling, row[2], ordered(cur, step).0, ordered(cur, step).1][k]);
        }
    }
    lemma_dir_gate_admits_bits(row);
    lemma_order_gates_fix_children(row);
}

// ---------------------------------------------------------------------------
// The depth-general membership descriptor
// ---------------------------------------------------------------------------

/// A polynomial over two adjacent rows: a column of this row, a column of
/// the next row, a constant, a sum or a product.
#[derive(Debug, PartialEq, Eq)]
pub enum WindowExpr {
    /// A column of the current row.
    Loc(usize),
    /// A column of the next row.
    Nxt(usize),
    /// A signed integer constant.
    Const(i64),
    /// Field addition.
    Add(Box<WindowExpr>, Box<WindowExpr>),
    /// Field multiplication.
    Mul(Box<WindowExpr>, Box<WindowExpr>),
}

/// A two-row gate `body == 0`, on the transition rows or on every row.
#[derive(Debug, PartialEq, Eq)]
pub struct WindowGateSpec {
    /// The polynomial that must vanish.
    pub body: WindowExpr,
    /// `true`: asserted on the transition rows only.
    pub on_transition: bool,
}

/// The lookup tables a descriptor can name.
#[derive(Clone, Copy, Debug, PartialEq, Eq)]
pub enum LookupTable {
    /// The Poseidon2 chip: arity tag, the absorb-rate inputs, then the
    /// eight output lanes.
    Poseidon2,
}

/// A lookup: the tuple of row expressions must be a row of `table`.
#[derive(Debug, PartialEq, Eq)]
pub struct LookupSpec {
    /// The table looked into.
    pub table: LookupTable,
    /// The looked-up tuple.
    pub tuple: Vec<LeanExpr>,
}

/// A constraint of the membership descriptor: an EffectVM constraint, a
/// lookup or a two-row window gate.
#[derive(Debug, PartialEq, Eq)]
pub enum MembershipConstraint {
    /// An EffectVM constraint.
    Base(VmConstraint),
    /// A table lookup.
    Lookup(LookupSpec),
    /// A two-row gate.
    WindowGate(WindowGateSpec),
}

/// A descriptor with lookups and window gates.
#[derive(Debug, PartialEq, Eq)]
pub struct MembershipDescriptor {
    /// The descriptor's name; it carries the depth.
    pub name: String,
    /// Main-trace width.
    pub trace_width: usize,
    /// Public-input count.
    pub public_input_count: usize,
    /// Verifier challenges drawn.
    pub challenges: usize,
    /// Lookup tables the descriptor declares itself.
    pub tables: Vec<LookupTable>,
    /// The constraints, in order.
    pub constraints: Vec<MembershipConstraint>,
    /// Hash sites.
    pub hash_sites: Vec<VmHashSite>,
    /// Range checks.
    pub ranges: Vec<RangeSpec>,
}

/// The length of a Poseidon2 chip tuple: the arity tag, the absorb-rate
/// inputs and the eight output lanes.
pub const CHIP_TUPLE_LEN: usize = 25;

/// The parent lookup tuple: arity tag `2`, then `left`, `right` and zeros up
/// to the absorb rate, then `par` and the seven further lanes.
pub open spec fn chip_tuple() -> Seq<LeanExpr> {
    Seq::new(
        CHIP_TUPLE_LEN as nat,
        |k: int|
            if k == 0 {
                LeanExpr::Const(2i64)
            } else if k == 1 {
                LeanExpr::Var(LEFT)
            } else if k == 2 {
                LeanExpr::Var(RIGHT)
            } else if k <= CHIP_RATE {
                LeanExpr::Const(0i64)
            } else {
                LeanExpr::Var((PAR + (k - CHIP_RATE - 1)) as usize)
            },
    )
}

/// The continuity gate `next.cur - this.par`.
pub open spec fn continuity_body() -> WindowExpr {
    WindowExpr::Add(
        Box::new(WindowExpr::Nxt(CUR)),
        Box::new(WindowExpr::Mul(Box::new(WindowExpr::Const(-1i64)), Box::new(WindowExpr::Loc(PAR)))),
    )
}

/// The ten constraints of the general membership descriptor, in order: the
/// three row gates, the parent lookup into the Poseidon2 table, the
/// continuity window gate, the leaf and root bindings, and the three row
/// gates again as last-row boundaries.
pub open spec fn membership_general_constraints(cs: Seq<MembershipConstraint>) -> bool {
    &&& cs.len() == 10
    &&& cs[0] == MembershipConstraint::Base(VmConstraint::Gate(dir_binary_gate()))
    &&& cs[1] == MembershipConstraint::Base(VmConstraint::Gate(left_order_gate()))
    &&& cs[2] == MembershipConstraint::Base(VmConstraint::Gate(right_order_gate()))
    &&& cs[3] matches MembershipConstraint::Lookup(l) && l.table == LookupTable::Poseidon2 && l.tuple@ == chip_tuple()
    &&& cs[4] == MembershipConstraint::WindowGate(WindowGateSpec { body: continuity_body(), on_transition: true })
    &&& cs[5] == MembershipConstraint::Base(VmConstraint::PiBinding { row: VmRow::First, col: CUR, pi_index: PI_LEAF })
    &&& cs[6] == MembershipConstraint::Base(VmConstraint::PiBinding { row: VmRow::Last, col: PAR, pi_index: PI_ROOT })
    &&& cs[7] == MembershipConstraint::Base(VmConstraint::Boundary { row: VmRow::Last, body: dir_binary_gate() })
    &&& cs[8] == MembershipConstraint::Base(VmConstraint::Boundary { row: VmRow::Last, body: left_order_gate() })
    &&& cs[9] == MembershipConstraint::Base(VmConstraint::Boundary { row: VmRow::Last, body: right_order_gate() })
}

/// The single arity-2 lookup into the Poseidon2 table:
/// `hash_2_to_1(left, right)` gives `par` and the seven further lanes.
pub fn parent_chip_lookup() -> (r: MembershipConstraint)
    ensures
        r matches MembershipConstraint::Lookup(l) && l.table == LookupTable::Poseidon2 && l.tuple@ == chip_tuple(),
{
    let mut tuple: Vec<LeanExpr> = Vec::new();
    tuple.push(LeanExpr::Const(2));
    let mut i: usize = 0;
    while i < CHIP_RATE
        invariant
            i <= CHIP_RATE,
            tuple@ == chip_tuple().take(1 + i),
        decreases CHIP_RATE - i,
    {
        let e = if i == 0 {
            LeanExpr::Var(LEFT)
        } else if i == 1 {
            LeanExpr::Var(RIGHT)
        } else {
            LeanExpr::Const(0)
        };
        tuple.push(e);
        assert(tuple@ =~= chip_tuple().take(1 + i + 1));
        i = i + 1;
    }
    tuple.push(LeanExpr::Var(PAR));
    assert(tuple@ =~= chip_tuple().take(1 + CHIP_RATE + 1));
    let mut j: usize = 0;
    while j < CHIP_OUT_LANES - 1
        invariant
            j <= CHIP_OUT_LANES - 1,
            tuple@ == chip_tuple().take(2 + CHIP_RATE + j),
        decreases CHIP_OUT_LANES - 1 - j,
    {
        tuple.push(LeanExpr::Var(LANE_BASE + j));
        assert(tuple@ =~= chip_tuple().take(2 + CHIP_RATE + j + 1));
        j = j + 1;
    }
    assert(tuple@ =~= chip_tuple());
    MembershipConstraint::Lookup(LookupSpec { table: LookupTable::Poseidon2, tuple })
}

/// **The depth-general membership descriptor**: one Merkle level per row,
/// the level block tied across rows by the continuity gate, the leaf bound
/// at the first row and the root at the last; the depth lives in the trace
/// height and in the name.
pub fn membership_descriptor_of_depth(depth: usize) -> (d: MembershipDescriptor)
    ensures
        d.name@ == "merkle-membership::poseidon2-binary-general-depth"@ + decimal_spec(depth as nat),
        d.trace_width == MEMBERSHIP_GENERAL_WIDTH,
        d.public_input_count == MEMBERSHIP_GENERAL_PI_COUNT,
        d.challenges == 0,
        d.tables@.len() == 0,
        d.hash_sites@.len() == 0,
        d.ranges@.len() == 0,
        membership_general_constraints(d.constraints@),
{
    let mut constraints: Vec<MembershipConstraint> = Vec::new();
    constraints.push(MembershipConstraint::Base(VmConstraint::Gate(dir_binary_body())));
    constraints.push(MembershipConstraint::Base(VmConstraint::Gate(left_order_body())));
    constraints.push(MembershipConstraint::Base(VmConstraint::Gate(right_order_body())));
    constraints.push(parent_chip_lookup());
    constraints.push(
        MembershipConstraint::WindowGate(
            WindowGateSpec {
                body: WindowExpr::Add(
                    Box::new(WindowExpr::Nxt(CUR)),
                    Box::new(WindowExpr::Mul(Box::new(WindowExpr::Const(-1)), Box::new(WindowExpr::Loc(PAR)))),
                ),
                on_transition: true,
            },
        ),
    );
    constraints.push(MembershipConstraint::Base(VmConstraint::PiBinding { row: VmRow::First, col: CUR, pi_index: PI_LEAF }));
    constraints.push(MembershipConstraint::Base(VmConstraint::PiBinding { row: VmRow::Last, col: PAR, pi_index: PI_ROOT }));
    constraints.push(MembershipConstraint::Base(VmConstraint::Boundary { row: VmRow::Last, body: dir_binary_body() }));
    constraints.push(MembershipConstraint::Base(VmConstraint::Boundary { row: VmRow::Last, body: left_order_body() }));
    constraints.push(MembershipConstraint::Base(VmConstraint::Boundary { row: VmRow::Last, body: right_order_body() }));
    let mut name = String::from_str("merkle-membership::poseidon2-binary-general-depth");
    let n = decimal(depth as u64);
    name.append(n.as_str());
    MembershipDescriptor {
        name,
        trace_width: MEMBERSHIP_GENERAL_WIDTH,
        public_input_count: MEMBERSHIP_GENERAL_PI_COUNT,
        challenges: 0,
        tables: Vec::new(),
        constraints,
        hash_sites: Vec::new(),
        ranges: Vec::new(),
    }
}


/// **A Merkle step orders the pair by the direction bit**: the running hash
/// is the left child when `dir` is false and the right child when it is
/// true, the sibling taking the other slot, and the parent lanes are the
/// absorb of that ordered pair.
pub proof fn lemma_step_orders_by_dir(cur: BabyBear, step: MembershipStep)
    ensures
        step_lanes(cur, step) == spec_absorb(
            if step.dir {
                seq![step.sibling, cur]
            } else {
                seq![cur, step.sibling]
            },
        ),
        (if step.dir { ordered(cur, step).1 } else { ordered(cur, step).0 }) == cur,
        (if step.dir { ordered(cur, step).0 } else { ordered(cur, step).1 }) == step.sibling,
{
    if step.dir {
        assert(seq![ordered(cur, step).0, ordered(cur, step).1] =~= seq![step.sibling, cur]);
    } else {
        assert(seq![ordered(cur, step).0, ordered(cur, step).1] =~= seq![cur, step.sibling]);
    }
}

} // verus!
