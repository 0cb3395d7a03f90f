//! Circuit descriptors emitted by the Lean toolchain: the expression and
//! constraint ASTs, the single-row descriptor and the multi-row EffectVM
//! descriptor, their decoders from the emitted JSON, and the width and
//! bounds bookkeeping of the AIRs that interpret them.
//!
//! The decoders are written over bytes, against a grammar stated as spec
//! functions (`sp_*`): every decoder returns exactly what its grammar
//! function gives, or an error exactly when the grammar function fails.
pub mod json;
pub mod effect_vm;
pub mod refusals;

use vstd::prelude::*;
use vstd::arithmetic::power2::pow2;
use crate::field::{BabyBear, BABYBEAR_P};
use crate::text::{decimal_spec, push_num};
use self::json::{push_text, ws_end, lex_byte, peek_byte, lex_raw_string, lex_string, lex_int, lex_int_field, lemma_ws_end, int_digits_start, int_digits_end};
pub use self::json::JsonCursor;
pub use self::effect_vm::{
    VmRow, VmConstraint, HashInput, VmHashSite, EffectVmDescriptor, EffectVmDescriptorAir, parse_vm_descriptor,
    EFFECTVM_NUM_EFFECTS, EFFECTVM_STATE_SIZE, EFFECTVM_STATE_BEFORE_BASE, EFFECTVM_STATE_AFTER_BASE,
};
use vstd::utf8::encode_utf8;
use vstd::string::StringSliceAdditionalSpecFns;

verus! {

// ---------------------------------------------------------------------------
// The expression and constraint ASTs
// ---------------------------------------------------------------------------

/// A polynomial over the columns of a trace row: a column, a signed integer
/// constant (reduced into BabyBear when evaluated), a sum, or a product.
#[derive(Debug, PartialEq, Eq)]
pub enum LeanExpr {
    /// Column index into the current row.
    Var(usize),
    /// A signed integer constant.
    Const(i64),
    /// Field addition.
    Add(Box<LeanExpr>, Box<LeanExpr>),
    /// Field multiplication.
    Mul(Box<LeanExpr>, Box<LeanExpr>),
}

impl Clone for LeanExpr {
    /// A deep copy.
    fn clone(&self) -> (r: Self)
        ensures
            r == *self,
        decreases self,
    {
        match self {
            LeanExpr::Var(i) => LeanExpr::Var(*i),
            LeanExpr::Const(c) => LeanExpr::Const(*c),
            LeanExpr::Add(a, b) => LeanExpr::Add(Box::new((&**a).clone()), Box::new((&**b).clone())),
            LeanExpr::Mul(a, b) => LeanExpr::Mul(Box::new((&**a).clone()), Box::new((&**b).clone())),
        }
    }
}

/// The larger of two optional column indices.
pub open spec fn max_opt(a: Option<usize>, b: Option<usize>) -> Option<usize> {
    match (a, b) {
        (Some(x), Some(y)) => Some(if x >= y { x } else { y }),
        (Some(x), None) => Some(x),
        (None, Some(y)) => Some(y),
        (None, None) => None,
    }
}

/// The largest column an expression reads, if any.
pub open spec fn spec_max_var(e: LeanExpr) -> Option<usize>
    decreases e,
{
    match e {
        LeanExpr::Var(i) => Some(i),
        LeanExpr::Const(_) => None,
        LeanExpr::Add(a, b) => max_opt(spec_max_var(*a), spec_max_var(*b)),
        LeanExpr::Mul(a, b) => max_opt(spec_max_var(*a), spec_max_var(*b)),
    }
}

/// The total degree of an expression: constants 0, columns 1, a sum the
/// larger, a product the sum.
pub open spec fn spec_degree(e: LeanExpr) -> nat
    decreases e,
{
    match e {
        LeanExpr::Const(_) => 0,
        LeanExpr::Var(_) => 1,
        LeanExpr::Add(a, b) => {
            let x = spec_degree(*a);
            let y = spec_degree(*b);
            if x >= y {
                x
            } else {
                y
            }
        },
        LeanExpr::Mul(a, b) => spec_degree(*a) + spec_degree(*b),
    }
}

/// Every sub-expression's degree fits a `usize`.
pub open spec fn degree_fits(e: LeanExpr) -> bool {
    spec_degree(e) <= usize::MAX
}

/// The value of an expression on a trace row, as the canonical
/// representative in `[0, p)`: a column reads its element, a constant is
/// reduced mod `p`, sums and products are taken mod `p`.
pub open spec fn expr_value(e: LeanExpr, row: Seq<BabyBear>) -> int
    decreases e,
{
    match e {
        LeanExpr::Var(i) => row[i as int].value() as int,
        LeanExpr::Const(c) => (c as int) % (BABYBEAR_P as int),
        LeanExpr::Add(a, b) => (expr_value(*a, row) + expr_value(*b, row)) % (BABYBEAR_P as int),
        LeanExpr::Mul(a, b) => (expr_value(*a, row) * expr_value(*b, row)) % (BABYBEAR_P as int),
    }
}

impl LeanExpr {
    /// `Var(i)`.
    pub fn var(i: usize) -> (r: Self)
        ensures
            r == LeanExpr::Var(i),
    {
        LeanExpr::Var(i)
    }

    /// `Const(c)`.
    pub fn constant(c: i64) -> (r: Self)
        ensures
            r == LeanExpr::Const(c),
    {
        LeanExpr::Const(c)
    }

    /// `Add(a, b)`.
    pub fn add(a: LeanExpr, b: LeanExpr) -> (r: Self)
        ensures
            r == LeanExpr::Add(Box::new(a), Box::new(b)),
    {
        LeanExpr::Add(Box::new(a), Box::new(b))
    }

    /// `Mul(a, b)`.
    pub fn mul(a: LeanExpr, b: LeanExpr) -> (r: Self)
        ensures
            r == LeanExpr::Mul(Box::new(a), Box::new(b)),
    {
        LeanExpr::Mul(Box::new(a), Box::new(b))
    }

    /// The largest column index the expression reads, if any.
    pub fn max_var(&self) -> (r: Option<usize>)
        ensures
            r == spec_max_var(*self),
        decreases self,
    {
        match self {
            LeanExpr::Var(i) => Some(*i),
            LeanExpr::Const(_) => None,
            LeanExpr::Add(a, b) => max_of(a.max_var(), b.max_var()),
            LeanExpr::Mul(a, b) => max_of(a.max_var(), b.max_var()),
        }
    }

    /// The total degree of the expression as a polynomial over the columns.
    pub fn degree(&self) -> (r: usize)
        requires
            degree_fits(*self),
        ensures
            r == spec_degree(*self),
        decreases self,
    {
        match self {
            LeanExpr::Const(_) => 0,
            LeanExpr::Var(_) => 1,
            LeanExpr::Add(a, b) => {
                let x = a.degree();
                let y = b.degree();
                if x >= y {
                    x
                } else {
                    y
                }
            },
            LeanExpr::Mul(a, b) => a.degree() + b.degree(),
        }
    }
}

/// The larger of two optional column indices.
fn max_of(a: Option<usize>, b: Option<usize>) -> (r: Option<usize>)
    ensures
        r == max_opt(a, b),
{
    match (a, b) {
        (Some(x), Some(y)) => Some(if x >= y { x } else { y }),
        (Some(x), None) => Some(x),
        (None, Some(y)) => Some(y),
        (None, None) => None,
    }
}

/// A gate equation `lhs = rhs`: the polynomial `lhs - rhs` must vanish.
#[derive(Clone, Debug, PartialEq, Eq)]
pub struct LeanConstraint {
    /// Left-hand side.
    pub lhs: LeanExpr,
    /// Right-hand side.
    pub rhs: LeanExpr,
}

/// The degree of a constraint: the larger side's.
pub open spec fn constraint_degree(c: LeanConstraint) -> nat {
    let x = spec_degree(c.lhs);
    let y = spec_degree(c.rhs);
    if x >= y {
        x
    } else {
        y
    }
}

impl LeanConstraint {
    /// The constraint `lhs = rhs`.
    pub fn new(lhs: LeanExpr, rhs: LeanExpr) -> (r: Self)
        ensures
            r == (LeanConstraint { lhs, rhs }),
    {
        LeanConstraint { lhs, rhs }
    }

    /// The constraint's degree, `max(deg lhs, deg rhs)`.
    pub fn degree(&self) -> (r: usize)
        requires
            degree_fits(self.lhs),
            degree_fits(self.rhs),
        ensures
            r == constraint_degree(*self),
    {
        let x = self.lhs.degree();
        let y = self.rhs.degree();
        if x >= y {
            x
        } else {
            y
        }
    }
}

/// A range check: wire `wire` must lie in `[0, 2^bits)`.
#[derive(Clone, Copy, Debug, PartialEq, Eq)]
pub struct RangeSpec {
    /// The base-trace column that is range-checked.
    pub wire: usize,
    /// The bit width.
    pub bits: usize,
}

/// A single-row descriptor: name, base trace width, gate equations, and
/// range checks.
#[derive(Clone, Debug, PartialEq, Eq)]
pub struct LeanDescriptor {
    /// AIR identity string.
    pub name: String,
    /// Number of base wires.
    pub trace_width: usize,
    /// Gate equations; each must hold on every row.
    pub constraints: Vec<LeanConstraint>,
    /// The range checks, enforced by bit decomposition.
    pub ranges: Vec<RangeSpec>,
}

/// The total bit width of a list of range checks.
pub open spec fn sum_bits(ranges: Seq<RangeSpec>) -> nat
    decreases ranges.len(),
{
    if ranges.len() == 0 {
        0
    } else {
        sum_bits(ranges.drop_last()) + ranges.last().bits as nat
    }
}

/// The largest constraint degree of a list (`None` when empty).
pub open spec fn max_constraint_degree(cs: Seq<LeanConstraint>) -> Option<nat>
    decreases cs.len(),
{
    if cs.len() == 0 {
        None
    } else {
        let d = constraint_degree(cs.last());
        match max_constraint_degree(cs.drop_last()) {
            None => Some(d),
            Some(m) => Some(if m >= d { m } else { d }),
        }
    }
}

/// The AIR degree of a descriptor: the largest constraint degree (1 when
/// there is none, and at least 1), and at least 2 when any range check is
/// present.
pub open spec fn descriptor_degree(constraints: Seq<LeanConstraint>, has_ranges: bool) -> nat {
    let arith = match max_constraint_degree(constraints) {
        None => 1nat,
        Some(m) => if m >= 1 { m } else { 1nat },
    };
    if has_ranges && arith < 2 {
        2
    } else {
        arith
    }
}

/// A constraint reads only columns below `width`.
pub open spec fn constraint_in_bounds(c: LeanConstraint, width: usize) -> bool {
    &&& (spec_max_var(c.lhs) matches Some(m) ==> m < width)
    &&& (spec_max_var(c.rhs) matches Some(m) ==> m < width)
}

/// A range check reads a column below `width` and is at most 63 bits wide.
pub open spec fn range_in_bounds(r: RangeSpec, width: usize) -> bool {
    r.wire < width && r.bits <= 63
}

impl LeanDescriptor {
    /// A descriptor with no range checks.
    pub fn new(name: &str, trace_width: usize, constraints: Vec<LeanConstraint>) -> (r: Self)
        ensures
            r.name@ == name@,
            r.trace_width == trace_width,
            r.constraints@ == constraints@,
            r.ranges@.len() == 0,
    {
        LeanDescriptor { name: String::from_str(name), trace_width, constraints, ranges: Vec::new() }
    }

    /// A descriptor with range checks.
    pub fn with_ranges(name: &str, trace_width: usize, constraints: Vec<LeanConstraint>, ranges: Vec<RangeSpec>) -> (r: Self)
        ensures
            r.name@ == name@,
            r.trace_width == trace_width,
            r.constraints@ == constraints@,
            r.ranges@ == ranges@,
    {
        LeanDescriptor { name: String::from_str(name), trace_width, constraints, ranges }
    }

    /// The number of boolean aux columns the range gates need, `Σ bits`.
    pub fn total_range_bits(&self) -> (r: usize)
        requires
            sum_bits(self.ranges@) <= usize::MAX,
        ensures
            r == sum_bits(self.ranges@),
    {
        assert(self.ranges@.take(self.ranges@.len() as int) =~= self.ranges@);
        sum_range_bits(&self.ranges, self.ranges.len())
    }

    /// The full AIR width: base wires plus the range aux columns.
    pub fn air_width(&self) -> (r: usize)
        requires
            self.trace_width + sum_bits(self.ranges@) <= usize::MAX,
        ensures
            r == self.trace_width + sum_bits(self.ranges@),
    {
        self.trace_width + self.total_range_bits()
    }

    /// The first aux column of the `range_index`-th range check.
    pub fn aux_offset(&self, range_index: usize) -> (r: usize)
        requires
            range_index <= self.ranges@.len(),
            self.trace_width + sum_bits(self.ranges@.take(range_index as int)) <= usize::MAX,
        ensures
            r == self.trace_width + sum_bits(self.ranges@.take(range_index as int)),
    {
        self.trace_width + sum_range_bits(&self.ranges, range_index)
    }

    /// The AIR's maximum constraint degree (see [`descriptor_degree`]).
    pub fn max_degree(&self) -> (r: usize)
        requires
            forall|i: int| 0 <= i < self.constraints@.len() ==> degree_fits(#[trigger] self.constraints@[i].lhs)
                && degree_fits(self.constraints@[i].rhs),
        ensures
            r == descriptor_degree(self.constraints@, self.ranges@.len() > 0),
    {
        let mut best: Option<usize> = None;
        let mut i: usize = 0;
        while i < self.constraints.len()
            invariant
                i <= self.constraints@.len(),
                forall|j: int| 0 <= j < self.constraints@.len() ==> degree_fits(#[trigger] self.constraints@[j].lhs)
                    && degree_fits(self.constraints@[j].rhs),
                best matches Some(b) ==> max_constraint_degree(self.constraints@.take(i as int)) == Some(b as nat),
                best is None ==> max_constraint_degree(self.constraints@.take(i as int)) is None,
            decreases self.constraints@.len() - i,
        {
            assert(self.constraints@.take(i + 1).drop_last() =~= self.constraints@.take(i as int));
            let d = self.constraints[i].degree();
            best = match best {
                None => Some(d),
                Some(m) => Some(if m >= d { m } else { d }),
            };
            i = i + 1;
        }
        assert(self.constraints@.take(self.constraints@.len() as int) =~= self.constraints@);
        let arith = match best {
            None => 1,
            Some(m) => if m >= 1 { m } else { 1 },
        };
        if self.ranges.len() > 0 && arith < 2 {
            2
        } else {
            arith
        }
    }

    /// Check that every column a constraint or range check reads lies below
    /// `trace_width` and that every range is at most 63 bits wide; the first
    /// offending constraint, then range, is reported.
    pub fn check_var_bounds(&self) -> (r: Result<(), String>)
        ensures
            r is Ok <==> ((forall|i: int| 0 <= i < self.constraints@.len() ==> constraint_in_bounds(
                #[trigger] self.constraints@[i],
                self.trace_width,
            )) && (forall|i: int| 0 <= i < self.ranges@.len() ==> range_in_bounds(#[trigger] self.ranges@[i], self.trace_width))),
    {
        let mut ci: usize = 0;
        while ci < self.constraints.len()
            invariant
                ci <= self.constraints@.len(),
                forall|i: int| 0 <= i < ci ==> constraint_in_bounds(#[trigger] self.constraints@[i], self.trace_width),
            decreases self.constraints@.len() - ci,
        {
            let c = &self.constraints[ci];
            let mv = max_of(c.lhs.max_var(), c.rhs.max_var());
            match mv {
                Some(m) => {
                    if m >= self.trace_width {
                        let mut s = String::from_str("constraint ");
                        push_num(&mut s, ci as u64);
                        push_text(&mut s, " references column ");
                        push_num(&mut s, m as u64);
                        push_text(&mut s, " but trace_width is ");
                        push_num(&mut s, self.trace_width as u64);
                        return Err(s);
                    }
                },
                None => {},
            }
            ci = ci + 1;
        }
        let mut ri: usize = 0;
        while ri < self.ranges.len()
            invariant
                ri <= self.ranges@.len(),
                forall|i: int| 0 <= i < self.constraints@.len() ==> constraint_in_bounds(#[trigger] self.constraints@[i], self.trace_width),
                forall|i: int| 0 <= i < ri ==> range_in_bounds(#[trigger] self.ranges@[i], self.trace_width),
            decreases self.ranges@.len() - ri,
        {
            let r = self.ranges[ri];
            if r.wire >= self.trace_width {
                let mut s = String::from_str("range ");
                push_num(&mut s, ri as u64);
                push_text(&mut s, " checks column ");
                push_num(&mut s, r.wire as u64);
                push_text(&mut s, " but trace_width is ");
                push_num(&mut s, self.trace_width as u64);
                return Err(s);
            }
            if r.bits > 63 {
                let mut s = String::from_str("range ");
                push_num(&mut s, ri as u64);
                push_text(&mut s, " on column ");
                push_num(&mut s, r.wire as u64);
                push_text(&mut s, " has bits ");
                push_num(&mut s, r.bits as u64);
                push_text(&mut s, " > 63 (would overflow i64 weights)");
                return Err(s);
            }
            ri = ri + 1;
        }
        Ok(())
    }
}

/// `Σ bits` over the first `n` range checks.
fn sum_range_bits(ranges: &Vec<RangeSpec>, n: usize) -> (r: usize)
    requires
        n <= ranges@.len(),
        sum_bits(ranges@.take(n as int)) <= usize::MAX,
    ensures
        r == sum_bits(ranges@.take(n as int)),
{
    let mut acc: usize = 0;
    let mut i: usize = 0;
    while i < n
        invariant
            n <= ranges@.len(),
            i <= n,
            sum_bits(ranges@.take(n as int)) <= usize::MAX,
            acc == sum_bits(ranges@.take(i as int)),
        decreases n - i,
    {
        assert(ranges@.take(i + 1).drop_last() =~= ranges@.take(i as int));
        proof {
            lemma_sum_bits_prefix(ranges@, (i + 1) as int, n as int);
        }
        acc = acc + ranges[i].bits;
        i = i + 1;
    }
    acc
}

/// The bit total of a prefix is at most that of a longer prefix.
proof fn lemma_sum_bits_prefix(r: Seq<RangeSpec>, a: int, b: int)
    requires
        0 <= a <= b <= r.len(),
    ensures
        sum_bits(r.take(a)) <= sum_bits(r.take(b)),
    decreases b - a,
{
    if a < b {
        lemma_sum_bits_prefix(r, a, b - 1);
        assert(r.take(b).drop_last() =~= r.take(b - 1));
    }
}


// ---------------------------------------------------------------------------
// The descriptor grammar
// ---------------------------------------------------------------------------

/// The raw bytes `[a, e)` spell the word `w`.
pub open spec fn spells(s: Seq<u8>, a: int, e: int, w: Seq<char>) -> bool {
    s.subrange(a, e) == encode_utf8(w)
}

/// The members of an object from `i` on: `"key":value` pairs, each read by
/// `member` from the key's raw span and the value's position, separated by
/// commas up to the closing brace. `member` refuses an unknown or repeated
/// key.
pub open spec fn sp_obj<F>(s: Seq<u8>, i: int, f: F, member: spec_fn(Seq<u8>, int, int, int, F) -> Option<(F, int)>) -> Option<(F, int)>
    decreases s.len() - i,
{
    if !(0 <= i <= s.len()) {
        None
    } else {
        match lex_raw_string(s, i) {
            None => None,
            Some((ka, ke)) => match lex_byte(s, ke + 1, 58) {
                None => None,
                Some(v) => match member(s, ka, ke, v, f) {
                    None => None,
                    Some((g, p)) => {
                        let k = ws_end(s, p);
                        if 0 <= k < s.len() && s[k] == 44 {
                            if i < k + 1 <= s.len() {
                                sp_obj(s, k + 1, g, member)
                            } else {
                                None
                            }
                        } else if 0 <= k < s.len() && s[k] == 125 {
                            Some((g, k + 1))
                        } else {
                            None
                        }
                    },
                },
            },
        }
    }
}

/// An object: an opening brace, then its members (see [`sp_obj`]) from
/// the empty record `f`.
pub open spec fn sp_object<F>(s: Seq<u8>, i: int, f: F, member: spec_fn(Seq<u8>, int, int, int, F) -> Option<(F, int)>) -> Option<(F, int)> {
    match lex_byte(s, i, 123) {
        None => None,
        Some(a) => sp_obj(s, a, f, member),
    }
}

/// The members of an expression object read so far: the raw span of the
/// tag `"t"`, where the literal of `"v"` starts, and the operands `"l"`
/// and `"r"`.
pub type ExprFields = (Option<(int, int)>, Option<int>, Option<LeanExpr>, Option<LeanExpr>);

/// The members of an expression object from `i` on, in any order, each key
/// at most once: `"t"` a string, `"v"` an integer literal, `"l"` and `"r"`
/// expressions.
pub open spec fn sp_expr_members(s: Seq<u8>, i: int, f: ExprFields, strict: bool) -> Option<(ExprFields, int)>
    decreases s.len() - i,
{
    if !(0 <= i <= s.len()) {
        None
    } else {
        match lex_raw_string(s, i) {
            None => None,
            Some((ka, ke)) => match lex_byte(s, ke + 1, 58) {
                None => None,
                Some(v) => if !(i < v <= s.len()) {
                    None
                } else {
                    let m: Option<(ExprFields, int)> = if spells(s, ka, ke, "t"@) && f.0 is None {
                        match lex_raw_string(s, v) {
                            Some((ts, te)) => Some(((Some((ts, te)), f.1, f.2, f.3), te + 1)),
                            None => None,
                        }
                    } else if spells(s, ka, ke, "v"@) && f.1 is None {
                        if int_digits_end(s, v) == int_digits_start(s, v) {
                            None
                        } else {
                            Some(((f.0, Some(v), f.2, f.3), int_digits_end(s, v)))
                        }
                    } else if spells(s, ka, ke, "l"@) && f.2 is None {
                        match sp_expr(s, v, strict) {
                            Some((e, p)) => Some(((f.0, f.1, Some(e), f.3), p)),
                            None => None,
                        }
                    } else if spells(s, ka, ke, "r"@) && f.3 is None {
                        match sp_expr(s, v, strict) {
                            Some((e, p)) => Some(((f.0, f.1, f.2, Some(e)), p)),
                            None => None,
                        }
                    } else {
                        None
                    };
                    match m {
                        None => None,
                        Some((g, p)) => {
                            let k = ws_end(s, p);
                            if 0 <= k < s.len() && s[k] == 44 {
                                if i < k + 1 <= s.len() {
                                    sp_expr_members(s, k + 1, g, strict)
                                } else {
                                    None
                                }
                            } else if 0 <= k < s.len() && s[k] == 125 {
                                Some((g, k + 1))
                            } else {
                                None
                            }
                        },
                    }
                },
            },
        }
    }
}

/// The expression its members name: `"var"` with `"v"` a column index
/// (not negative), `"const"` with `"v"` read by `lex_int_field`, `"add"` or
/// `"mul"` with `"l"` and `"r"`; no other member.
pub open spec fn expr_of(s: Seq<u8>, f: ExprFields, strict: bool) -> Option<LeanExpr> {
    match f.0 {
        None => None,
        Some((ts, te)) => if spells(s, ts, te, "var"@) {
            match (f.1, f.2, f.3) {
                (Some(d), None, None) => match lex_int(s, d) {
                    Some((v, _)) => if v < 0 {
                        None
                    } else {
                        Some(LeanExpr::Var(v as usize))
                    },
                    None => None,
                },
                _ => None,
            }
        } else if spells(s, ts, te, "const"@) {
            match (f.1, f.2, f.3) {
                (Some(d), None, None) => match lex_int_field(s, d, strict) {
                    Some((v, _)) => Some(LeanExpr::Const(v)),
                    None => None,
                },
                _ => None,
            }
        } else if spells(s, ts, te, "add"@) || spells(s, ts, te, "mul"@) {
            match (f.1, f.2, f.3) {
                (None, Some(l), Some(r)) => Some(
                    if spells(s, ts, te, "add"@) {
                        LeanExpr::Add(Box::new(l), Box::new(r))
                    } else {
                        LeanExpr::Mul(Box::new(l), Box::new(r))
                    },
                ),
                _ => None,
            }
        } else {
            None
        },
    }
}

/// `<expr>`: an object whose members, in any order, are
/// `"t":"var","v":i` | `"t":"const","v":c` | `"t":"add","l":<expr>,"r":<expr>`
/// | `"t":"mul","l":<expr>,"r":<expr>` (see [`expr_of`]).
#[verifier::opaque]
pub open spec fn sp_expr(s: Seq<u8>, i: int, strict: bool) -> Option<(LeanExpr, int)>
    decreases s.len() - i,
{
    if !(0 <= i <= s.len()) {
        None
    } else {
        match lex_byte(s, i, 123) {
            None => None,
            Some(a) => if !(i < a <= s.len()) {
                None
            } else {
                match sp_expr_members(s, a, (None, None, None, None), strict) {
                    None => None,
                    Some((f, p)) => match expr_of(s, f, strict) {
                        Some(e) => Some((e, p)),
                        None => None,
                    },
                }
            },
        }
    }
}

/// The sides of a constraint object read so far.
pub type ConstraintFields = (Option<LeanExpr>, Option<LeanExpr>);

/// One member of a constraint object: `"lhs"` or `"rhs"`, each once.
pub open spec fn constraint_member(strict: bool) -> spec_fn(Seq<u8>, int, int, int, ConstraintFields) -> Option<(ConstraintFields, int)> {
    |s: Seq<u8>, ka: int, ke: int, v: int, f: ConstraintFields|
        if spells(s, ka, ke, "lhs"@) && f.0 is None {
            match sp_expr(s, v, strict) {
                Some((e, p)) => Some(((Some(e), f.1), p)),
                None => None,
            }
        } else if spells(s, ka, ke, "rhs"@) && f.1 is None {
            match sp_expr(s, v, strict) {
                Some((e, p)) => Some(((f.0, Some(e)), p)),
                None => None,
            }
        } else {
            None
        }
}

/// `{"lhs":<expr>,"rhs":<expr>}`, the two members in either order.
#[verifier::opaque]
pub open spec fn sp_constraint(s: Seq<u8>, i: int, strict: bool) -> Option<(LeanConstraint, int)> {
    match sp_object(s, i, (None, None), constraint_member(strict)) {
        Some(((Some(lhs), Some(rhs)), p)) => Some((LeanConstraint { lhs, rhs }, p)),
        _ => None,
    }
}

/// The width at and above which a range check over BabyBear (`p < 2^31`)
/// admits every field element and so refuses nothing.
pub const VACUOUS_RANGE_BITS: usize = 31;

/// The members of a range object read so far: wire and bits.
pub type RangeFields = (Option<i64>, Option<i64>);

/// One member of a range object: `"wire"` (not negative) or `"bits"` (not
/// negative, below [`VACUOUS_RANGE_BITS`]), each once.
pub open spec fn range_member() -> spec_fn(Seq<u8>, int, int, int, RangeFields) -> Option<(RangeFields, int)> {
    |s: Seq<u8>, ka: int, ke: int, v: int, f: RangeFields|
        if spells(s, ka, ke, "wire"@) && f.0 is None {
            match lex_int(s, v) {
                Some((w, p)) => if w < 0 {
                    None
                } else {
                    Some(((Some(w), f.1), p))
                },
                None => None,
            }
        } else if spells(s, ka, ke, "bits"@) && f.1 is None {
            match lex_int(s, v) {
                Some((b, p)) => if b < 0 || b as usize >= VACUOUS_RANGE_BITS {
                    None
                } else {
                    Some(((f.0, Some(b)), p))
                },
                None => None,
            }
        } else {
            None
        }
}

/// `{"wire":i,"bits":k}`, the two members in either order: neither may be
/// negative, and `k` must stay below [`VACUOUS_RANGE_BITS`].
#[verifier::opaque]
pub open spec fn sp_range(s: Seq<u8>, i: int) -> Option<(RangeSpec, int)> {
    match sp_object(s, i, (None, None), range_member()) {
        Some(((Some(w), Some(b)), p)) => Some((RangeSpec { wire: w as usize, bits: b as usize }, p)),
        _ => None,
    }
}

/// The elements of a non-empty array from `p` on: an element, then a comma
/// and more, or the closing bracket.
pub open spec fn sp_items<T>(s: Seq<u8>, p: int, item: spec_fn(Seq<u8>, int) -> Option<(T, int)>) -> Option<(Seq<T>, int)>
    decreases s.len() - p,
{
    if !(0 <= p <= s.len()) {
        None
    } else {
        match item(s, p) {
            None => None,
            Some((x, q)) => {
                let k = ws_end(s, q);
                if 0 <= k < s.len() && s[k] == 44 {
                    if p < k + 1 <= s.len() {
                        match sp_items(s, k + 1, item) {
                            Some((xs, e)) => Some((seq![x] + xs, e)),
                            None => None,
                        }
                    } else {
                        None
                    }
                } else if 0 <= k < s.len() && s[k] == 93 {
                    Some((seq![x], k + 1))
                } else {
                    None
                }
            },
        }
    }
}

/// `[` then `]`, or `[` and the elements.
pub open spec fn sp_array<T>(s: Seq<u8>, i: int, item: spec_fn(Seq<u8>, int) -> Option<(T, int)>) -> Option<(Seq<T>, int)> {
    match lex_byte(s, i, 91) {
        None => None,
        Some(a) => if peek_byte(s, a) == Some(93u8) {
            Some((seq![], ws_end(s, a) + 1))
        } else {
            sp_items(s, ws_end(s, a), item)
        },
    }
}

/// The constraint grammar as an array element.
pub open spec fn constraint_item(strict: bool) -> spec_fn(Seq<u8>, int) -> Option<(LeanConstraint, int)> {
    |s: Seq<u8>, p: int| sp_constraint(s, p, strict)
}

/// The range grammar as an array element.
pub open spec fn range_item() -> spec_fn(Seq<u8>, int) -> Option<(RangeSpec, int)> {
    |s: Seq<u8>, p: int| sp_range(s, p)
}

/// The members of a descriptor object read so far: name, trace width,
/// constraints, ranges.
pub type DescriptorFields = (Option<Seq<char>>, Option<usize>, Option<Seq<LeanConstraint>>, Option<Seq<RangeSpec>>);

/// One member's value, by its key: a later member overwrites an earlier one
/// of the same key, and an unknown key is refused.
pub open spec fn sp_member(s: Seq<u8>, ka: int, ke: int, v: int, f: DescriptorFields, strict: bool) -> Option<(DescriptorFields, int)> {
    if spells(s, ka, ke, "name"@) {
        match lex_string(s, v) {
            Some((t, p)) => Some(((Some(t), f.1, f.2, f.3), p)),
            None => None,
        }
    } else if spells(s, ka, ke, "trace_width"@) {
        match lex_int(s, v) {
            Some((n, p)) => if n < 0 {
                None
            } else {
                Some(((f.0, Some(n as usize), f.2, f.3), p))
            },
            None => None,
        }
    } else if spells(s, ka, ke, "constraints"@) {
        match sp_array(s, v, constraint_item(strict)) {
            Some((cs, p)) => Some(((f.0, f.1, Some(cs), f.3), p)),
            None => None,
        }
    } else if spells(s, ka, ke, "ranges"@) {
        match sp_array(s, v, range_item()) {
            Some((rs, p)) => Some(((f.0, f.1, f.2, Some(rs)), p)),
            None => None,
        }
    } else {
        None
    }
}

/// The members of a descriptor object from `i` on: `"key":value`, then a
/// comma and more, or the closing brace.
pub open spec fn sp_members(s: Seq<u8>, i: int, f: DescriptorFields, strict: bool) -> Option<(DescriptorFields, int)>
    decreases s.len() - i,
{
    if !(0 <= i <= s.len()) {
        None
    } else {
        match lex_raw_string(s, i) {
            None => None,
            Some((ka, ke)) => match lex_byte(s, ke + 1, 58) {
                None => None,
                Some(v) => match sp_member(s, ka, ke, v, f, strict) {
                    None => None,
                    Some((g, p)) => {
                        let k = ws_end(s, p);
                        if 0 <= k < s.len() && s[k] == 44 {
                            if i < k + 1 <= s.len() {
                                sp_members(s, k + 1, g, strict)
                            } else {
                                None
                            }
                        } else if 0 <= k < s.len() && s[k] == 125 {
                            Some((g, k + 1))
                        } else {
                            None
                        }
                    },
                },
            },
        }
    }
}

/// A descriptor object: members in any order; `name`, `trace_width` and
/// `constraints` required, `ranges` empty when absent. What follows the
/// closing brace is not read.
pub open spec fn sp_descriptor(s: Seq<u8>, strict: bool) -> Option<(Seq<char>, usize, Seq<LeanConstraint>, Seq<RangeSpec>)> {
    match lex_byte(s, 0, 123) {
        None => None,
        Some(a) => match sp_members(s, a, (None, None, None, None), strict) {
            None => None,
            Some((f, _)) => match (f.0, f.1, f.2) {
                (Some(n), Some(w), Some(cs)) => Some(
                    (
                        n,
                        w,
                        cs,
                        match f.3 {
                            Some(rs) => rs,
                            None => seq![],
                        },
                    ),
                ),
                _ => None,
            },
        },
    }
}

// ---------------------------------------------------------------------------
// The descriptor decoder
// ---------------------------------------------------------------------------

/// Whether the bytes `[a, e)` spell the word `w`.
fn spells_word(c: &JsonCursor, a: usize, e: usize, w: &str) -> (r: bool)
    requires
        a <= e <= c.bytes().len(),
    ensures
        r == spells(c.bytes(), a as int, e as int, w@),
{
    c.range_is(a, e, w.as_bytes())
}

/// An error naming what was found where something else was expected.
fn unexpected(what: &str, found: Option<u8>) -> (r: String)
    ensures
        r@ == match found {
            Some(b) => what@ + ", found byte "@ + decimal_spec(b as nat),
            None => what@ + ", found the end of input"@,
        },
{
    let mut m = String::from_str(what);
    match found {
        Some(b) => {
            push_text(&mut m, ", found byte ");
            push_num(&mut m, b as u64);
        },
        None => {
            push_text(&mut m, ", found the end of input");
        },
    }
    m
}

/// The exec record of an expression object's members, as [`ExprFields`].
pub open spec fn expr_fields(tag: Option<(usize, usize)>, vpos: Option<usize>, l: Option<LeanExpr>, r: Option<LeanExpr>) -> ExprFields {
    (
        match tag {
            Some((a, e)) => Some((a as int, e as int)),
            None => None,
        },
        match vpos {
            Some(d) => Some(d as int),
            None => None,
        },
        l,
        r,
    )
}

/// The expression an object's members name (see [`expr_of`]); the cursor
/// returns to where it stood.
fn finish_expr(
    c: &mut JsonCursor,
    tag: Option<(usize, usize)>,
    vpos: Option<usize>,
    l: Option<LeanExpr>,
    r: Option<LeanExpr>,
) -> (res: Result<LeanExpr, String>)
    requires
        old(c).wf(),
        tag matches Some((ts, te)) ==> ts <= te <= old(c).bytes().len(),
        vpos matches Some(d) ==> d <= old(c).bytes().len(),
    ensures
        old(c).same_text(final(c)),
        final(c).pos() == old(c).pos(),
        match expr_of(old(c).bytes(), expr_fields(tag, vpos, l, r), old(c).strict()) {
            Some(e) => res == Ok::<LeanExpr, String>(e),
            None => res is Err,
        },
{
    let q = c.position();
    let (ts, te) = match tag {
        Some(x) => x,
        None => {
            return Err(String::from_str("expr object without a \"t\" tag"));
        },
    };
    if spells_word(c, ts, te, "var") || spells_word(c, ts, te, "const") {
        let is_var = spells_word(c, ts, te, "var");
        if l.is_some() || r.is_some() {
            return Err(json::error_at("operand on a leaf expr", ts));
        }
        let d = match vpos {
            Some(d) => d,
            None => {
                return Err(json::error_at("leaf expr without \"v\"", ts));
            },
        };
        c.seek(d);
        let v = if is_var {
            c.parse_int()
        } else {
            c.parse_int_field()
        };
        c.seek(q);
        let v = match v {
            Ok(v) => v,
            Err(m) => {
                return Err(m);
            },
        };
        if is_var {
            if v < 0 {
                let mut m = String::from_str("negative variable index ");
                crate::text::push_int(&mut m, v);
                return Err(m);
            }
            Ok(LeanExpr::Var(v as usize))
        } else {
            Ok(LeanExpr::Const(v))
        }
    } else if spells_word(c, ts, te, "add") || spells_word(c, ts, te, "mul") {
        let is_add = spells_word(c, ts, te, "add");
        if vpos.is_some() {
            return Err(json::error_at("\"v\" on an operator expr", ts));
        }
        match (l, r) {
            (Some(l), Some(r)) => if is_add {
                Ok(LeanExpr::add(l, r))
            } else {
                Ok(LeanExpr::mul(l, r))
            },
            _ => Err(json::error_at("operator expr without both operands", ts)),
        }
    } else {
        Err(json::error_at("unknown expr tag", ts))
    }
}

/// Decode one `<expr>` object; its members may come in any order.
pub(crate) fn parse_expr(c: &mut JsonCursor) -> (r: Result<LeanExpr, String>)
    requires
        old(c).wf(),
    ensures
        old(c).same_text(final(c)),
        r is Ok ==> old(c).pos() < final(c).pos(),
        match sp_expr(old(c).bytes(), old(c).pos(), old(c).strict()) {
            Some((e, p)) => r == Ok::<LeanExpr, String>(e) && final(c).pos() == p,
            None => r is Err,
        },
    decreases old(c).bytes().len() - old(c).pos(),
{
    reveal(sp_expr);
    let ghost s = c.bytes();
    let ghost i0 = c.pos();
    let ghost strict = c.strict();
    match c.expect(123u8) {
        Ok(()) => {},
        Err(m) => {
            return Err(m);
        },
    }
    let ghost a = c.pos();
    let mut tag: Option<(usize, usize)> = None;
    let mut vpos: Option<usize> = None;
    let mut l: Option<LeanExpr> = None;
    let mut r: Option<LeanExpr> = None;
    loop
        invariant
            c.wf(),
            c.bytes() == s,
            c.strict() == strict,
            s == old(c).bytes(),
            strict == old(c).strict(),
            i0 == old(c).pos(),
            i0 < a <= c.pos(),
            lex_byte(s, i0, 123) == Some(a),
            sp_expr_members(s, a, (None, None, None, None), strict) == sp_expr_members(
                s,
                c.pos(),
                expr_fields(tag, vpos, l, r),
                strict,
            ),
            tag matches Some((ts, te)) ==> ts <= te <= s.len(),
            vpos matches Some(d) ==> d <= s.len(),
        decreases s.len() - c.pos(),
    {
        reveal(sp_expr);
        let ghost i = c.pos();
        let ghost f = expr_fields(tag, vpos, l, r);
        proof {
            json::lemma_raw_string_bounds(s, i);
        }
        let (ka, ke) = match c.parse_raw_string() {
            Ok(ae) => ae,
            Err(m) => {
                return Err(m);
            },
        };
        match c.expect(58u8) {
            Ok(()) => {},
            Err(m) => {
                return Err(m);
            },
        }
        let v = c.position();
        if spells_word(c, ka, ke, "t") && tag.is_none() {
            proof {
                json::lemma_raw_string_bounds(s, v as int);
            }
            match c.parse_raw_string() {
                Ok(ae) => {
                    tag = Some(ae);
                },
                Err(m) => {
                    return Err(m);
                },
            }
        } else if spells_word(c, ka, ke, "v") && vpos.is_none() {
            if !c.skip_int() {
                return Err(json::error_at("expected an integer literal", v));
            }
            vpos = Some(v);
        } else if spells_word(c, ka, ke, "l") && l.is_none() {
            match parse_expr(c) {
                Ok(e) => {
                    l = Some(e);
                },
                Err(m) => {
                    return Err(m);
                },
            }
        } else if spells_word(c, ka, ke, "r") && r.is_none() {
            match parse_expr(c) {
                Ok(e) => {
                    r = Some(e);
                },
                Err(m) => {
                    return Err(m);
                },
            }
        } else {
            return Err(json::error_at("unknown or repeated expr key", ka));
        }
        let ghost q = c.pos();
        proof {
            lemma_ws_end(s, q);
        }
        let next = c.peek();
        if next == Some(44u8) {
            match c.expect(44u8) {
                Ok(()) => {},
                Err(m) => {
                    return Err(m);
                },
            }
        } else if next == Some(125u8) {
            match c.expect(125u8) {
                Ok(()) => {},
                Err(m) => {
                    return Err(m);
                },
            }
            return finish_expr(c, tag, vpos, l, r);
        } else {
            return Err(unexpected("expected ',' or '}' in expr object", next));
        }
    }
}

/// Decode one constraint object `{"lhs":<expr>,"rhs":<expr>}`, the members
/// in either order.
fn parse_constraint(c: &mut JsonCursor) -> (r: Result<LeanConstraint, String>)
    requires
        old(c).wf(),
    ensures
        old(c).same_text(final(c)),
        r is Ok ==> old(c).pos() < final(c).pos(),
        match sp_constraint(old(c).bytes(), old(c).pos(), old(c).strict()) {
            Some((x, p)) => r == Ok::<LeanConstraint, String>(x) && final(c).pos() == p,
            None => r is Err,
        },
{
    reveal(sp_constraint);
    let ghost s = c.bytes();
    let ghost i0 = c.pos();
    let ghost strict = c.strict();
    let ghost m = constraint_member(strict);
    match c.expect(123u8) {
        Ok(()) => {},
        Err(e) => {
            return Err(e);
        },
    }
    let ghost a = c.pos();
    let mut lhs: Option<LeanExpr> = None;
    let mut rhs: Option<LeanExpr> = None;
    loop
        invariant
            c.wf(),
            c.bytes() == s,
            c.strict() == strict,
            s == old(c).bytes(),
            strict == old(c).strict(),
            i0 == old(c).pos(),
            i0 < c.pos(),
            m == constraint_member(strict),
            lex_byte(s, i0, 123) == Some(a),
            sp_obj(s, a, (None, None), m) == sp_obj(s, c.pos(), (lhs, rhs), m),
        decreases s.len() - c.pos(),
    {
        reveal(sp_constraint);
        let ghost i = c.pos();
        proof {
            json::lemma_raw_string_bounds(s, i);
        }
        let (ka, ke) = match c.parse_raw_string() {
            Ok(ae) => ae,
            Err(e) => {
                return Err(e);
            },
        };
        match c.expect(58u8) {
            Ok(()) => {},
            Err(e) => {
                return Err(e);
            },
        }
        if spells_word(c, ka, ke, "lhs") && lhs.is_none() {
            match parse_expr(c) {
                Ok(e) => {
                    lhs = Some(e);
                },
                Err(e) => {
                    return Err(e);
                },
            }
        } else if spells_word(c, ka, ke, "rhs") && rhs.is_none() {
            match parse_expr(c) {
                Ok(e) => {
                    rhs = Some(e);
                },
                Err(e) => {
                    return Err(e);
                },
            }
        } else {
            return Err(json::error_at("unknown or repeated constraint key", ka));
        }
        let ghost q = c.pos();
        proof {
            lemma_ws_end(s, q);
        }
        let next = c.peek();
        if next == Some(44u8) {
            match c.expect(44u8) {
                Ok(()) => {},
                Err(e) => {
                    return Err(e);
                },
            }
        } else if next == Some(125u8) {
            match c.expect(125u8) {
                Ok(()) => {},
                Err(e) => {
                    return Err(e);
                },
            }
            return match (lhs, rhs) {
                (Some(lhs), Some(rhs)) => Ok(LeanConstraint::new(lhs, rhs)),
                _ => Err(String::from_str("constraint object needs both \"lhs\" and \"rhs\"")),
            };
        } else {
            return Err(unexpected("expected ',' or '}' in constraint object", next));
        }
    }
}

/// Decode one range object `{"wire":i,"bits":k}`, the members in either
/// order, refusing a negative value and a vacuous width.
pub(crate) fn parse_range(c: &mut JsonCursor) -> (r: Result<RangeSpec, String>)
    requires
        old(c).wf(),
    ensures
        old(c).same_text(final(c)),
        r is Ok ==> old(c).pos() < final(c).pos(),
        match sp_range(old(c).bytes(), old(c).pos()) {
            Some((x, p)) => r == Ok::<RangeSpec, String>(x) && final(c).pos() == p,
            None => r is Err,
        },
{
    reveal(sp_range);
    let ghost s = c.bytes();
    let ghost i0 = c.pos();
    let ghost m = range_member();
    match c.expect(123u8) {
        Ok(()) => {},
        Err(e) => {
            return Err(e);
        },
    }
    let ghost a = c.pos();
    let mut wire: Option<i64> = None;
    let mut bits: Option<i64> = None;
    loop
        invariant
            c.wf(),
            c.bytes() == s,
            s == old(c).bytes(),
            c.strict() == old(c).strict(),
            i0 == old(c).pos(),
            i0 < c.pos(),
            m == range_member(),
            lex_byte(s, i0, 123) == Some(a),
            sp_obj(s, a, (None, None), m) == sp_obj(s, c.pos(), (wire, bits), m),
        decreases s.len() - c.pos(),
    {
        reveal(sp_range);
        let ghost i = c.pos();
        proof {
            json::lemma_raw_string_bounds(s, i);
        }
        let (ka, ke) = match c.parse_raw_string() {
            Ok(ae) => ae,
            Err(e) => {
                return Err(e);
            },
        };
        match c.expect(58u8) {
            Ok(()) => {},
            Err(e) => {
                return Err(e);
            },
        }
        if spells_word(c, ka, ke, "wire") && wire.is_none() {
            let w = match c.parse_int() {
                Ok(v) => v,
                Err(e) => {
                    return Err(e);
                },
            };
            if w < 0 {
                let mut e = String::from_str("negative range wire ");
                crate::text::push_int(&mut e, w);
                return Err(e);
            }
            wire = Some(w);
        } else if spells_word(c, ka, ke, "bits") && bits.is_none() {
            let b = match c.parse_int() {
                Ok(v) => v,
                Err(e) => {
                    return Err(e);
                },
            };
            if b < 0 {
                let mut e = String::from_str("negative range bits ");
                crate::text::push_int(&mut e, b);
                return Err(e);
            }
            if b as usize >= VACUOUS_RANGE_BITS {
                let mut e = String::from_str("range entry declares bits ");
                crate::text::push_int(&mut e, b);
                push_text(&mut e, " >= 31: the BabyBear field is below 2^31, so the range contains every element and such a check refuses nothing. Re-emit the descriptor at a wrap-free width (<= 29), or express the quantity as a limb vector at that width");
                return Err(e);
            }
            bits = Some(b);
        } else {
            return Err(json::error_at("unknown or repeated range key", ka));
        }
        let ghost q = c.pos();
        proof {
            lemma_ws_end(s, q);
        }
        let next = c.peek();
        if next == Some(44u8) {
            match c.expect(44u8) {
                Ok(()) => {},
                Err(e) => {
                    return Err(e);
                },
            }
        } else if next == Some(125u8) {
            match c.expect(125u8) {
                Ok(()) => {},
                Err(e) => {
                    return Err(e);
                },
            }
            return match (wire, bits) {
                (Some(w), Some(b)) => Ok(RangeSpec { wire: w as usize, bits: b as usize }),
                _ => Err(String::from_str("range object needs both \"wire\" and \"bits\"")),
            };
        } else {
            return Err(unexpected("expected ',' or '}' in range object", next));
        }
    }
}

/// Decode an array of constraint objects.
fn parse_constraint_array(c: &mut JsonCursor) -> (r: Result<Vec<LeanConstraint>, String>)
    requires
        old(c).wf(),
    ensures
        old(c).same_text(final(c)),
        r is Ok ==> old(c).pos() < final(c).pos(),
        match sp_array(old(c).bytes(), old(c).pos(), constraint_item(old(c).strict())) {
            Some((xs, p)) => r matches Ok(v) && v@ == xs && final(c).pos() == p,
            None => r is Err,
        },
{
    let ghost s = c.bytes();
    let ghost i0 = c.pos();
    let ghost f = constraint_item(c.strict());
    match c.expect(91u8) {
        Ok(()) => {},
        Err(m) => {
            return Err(m);
        },
    }
    proof {
        lemma_ws_end(s, c.pos());
    }
    let mut v: Vec<LeanConstraint> = Vec::new();
    if c.peek() == Some(93u8) {
        match c.expect(93u8) {
            Ok(()) => {},
            Err(m) => {
                return Err(m);
            },
        }
        return Ok(v);
    }
    let ghost p0 = c.pos();
    loop
        invariant
            c.wf(),
            c.bytes() == s,
            s == old(c).bytes(),
            i0 == old(c).pos(),
            c.strict() == old(c).strict(),
            f == constraint_item(c.strict()),
            i0 < p0 <= c.pos(),
            sp_array(s, i0, f) == sp_items(s, p0, f),
            sp_items(s, p0, f) == (match sp_items(s, c.pos(), f) {
                Some((xs, e)) => Some((v@ + xs, e)),
                None => None,
            }),
        decreases s.len() - c.pos(),
    {
        let ghost p = c.pos();
        let x = match parse_constraint(c) {
            Ok(x) => x,
            Err(m) => {
                return Err(m);
            },
        };
        let ghost q = c.pos();
        proof {
            lemma_ws_end(s, q);
        }
        v.push(x);
        let next = c.peek();
        if next == Some(44u8) {
            match c.expect(44u8) {
                Ok(()) => {},
                Err(m) => {
                    return Err(m);
                },
            }
            proof {
                let k = ws_end(s, q);
                match sp_items(s, k + 1, f) {
                    Some((xs, e)) => {
                        assert(v@ + xs =~= v@.drop_last() + (seq![x] + xs));
                    },
                    None => {},
                }
            }
        } else if next == Some(93u8) {
            match c.expect(93u8) {
                Ok(()) => {},
                Err(m) => {
                    return Err(m);
                },
            }
            assert(v@ =~= v@.drop_last() + seq![x]);
            return Ok(v);
        } else {
            return Err(unexpected("expected ',' or ']' in constraint array", next));
        }
    }
}

/// Decode an array of range objects.
fn parse_range_array(c: &mut JsonCursor) -> (r: Result<Vec<RangeSpec>, String>)
    requires
        old(c).wf(),
    ensures
        old(c).same_text(final(c)),
        r is Ok ==> old(c).pos() < final(c).pos(),
        match sp_array(old(c).bytes(), old(c).pos(), range_item()) {
            Some((xs, p)) => r matches Ok(v) && v@ == xs && final(c).pos() == p,
            None => r is Err,
        },
{
    let ghost s = c.bytes();
    let ghost i0 = c.pos();
    let ghost f = range_item();
    match c.expect(91u8) {
        Ok(()) => {},
        Err(m) => {
            return Err(m);
        },
    }
    proof {
        lemma_ws_end(s, c.pos());
    }
    let mut v: Vec<RangeSpec> = Vec::new();
    if c.peek() == Some(93u8) {
        match c.expect(93u8) {
            Ok(()) => {},
            Err(m) => {
                return Err(m);
            },
        }
        return Ok(v);
    }
    let ghost p0 = c.pos();
    loop
        invariant
            c.wf(),
            c.bytes() == s,
            s == old(c).bytes(),
            i0 == old(c).pos(),
            c.strict() == old(c).strict(),
            f == range_item(),
            i0 < p0 <= c.pos(),
            sp_array(s, i0, f) == sp_items(s, p0, f),
            sp_items(s, p0, f) == (match sp_items(s, c.pos(), f) {
                Some((xs, e)) => Some((v@ + xs, e)),
                None => None,
            }),
        decreases s.len() - c.pos(),
    {
        let ghost p = c.pos();
        let x = match parse_range(c) {
            Ok(x) => x,
            Err(m) => {
                return Err(m);
            },
        };
        let ghost q = c.pos();
        proof {
            lemma_ws_end(s, q);
        }
        v.push(x);
        let next = c.peek();
        if next == Some(44u8) {
            match c.expect(44u8) {
                Ok(()) => {},
                Err(m) => {
                    return Err(m);
                },
            }
            proof {
                let k = ws_end(s, q);
                match sp_items(s, k + 1, f) {
                    Some((xs, e)) => {
                        assert(v@ + xs =~= v@.drop_last() + (seq![x] + xs));
                    },
                    None => {},
                }
            }
        } else if next == Some(93u8) {
            match c.expect(93u8) {
                Ok(()) => {},
                Err(m) => {
                    return Err(m);
                },
            }
            assert(v@ =~= v@.drop_last() + seq![x]);
            return Ok(v);
        } else {
            return Err(unexpected("expected ',' or ']' in ranges array", next));
        }
    }
}

/// The view of an optional string.
pub open spec fn opt_text(o: Option<String>) -> Option<Seq<char>> {
    match o {
        Some(t) => Some(t@),
        None => None,
    }
}

/// The view of an optional vector.
pub open spec fn opt_seq<T>(o: Option<Vec<T>>) -> Option<Seq<T>> {
    match o {
        Some(v) => Some(v@),
        None => None,
    }
}

/// **`parse_descriptor`** — decode a Lean-emitted descriptor
/// `{"name":S,"trace_width":N,"constraints":[…],"ranges":[…]}` into a
/// [`LeanDescriptor`]. Whitespace-tolerant; members may come in any order.
pub fn parse_descriptor(json: &str) -> (r: Result<LeanDescriptor, String>)
    ensures
        match sp_descriptor(json.spec_bytes(), true) {
            Some((n, w, cs, rs)) => r matches Ok(d) && d.name@ == n && d.trace_width == w
                && d.constraints@ == cs && d.ranges@ == rs,
            None => r is Err,
        },
        r matches Ok(d) ==> (forall|k: int| 0 <= k < d.constraints@.len() ==> refusals::constraint_in_field(#[trigger] d.constraints@[k]))
            && (forall|k: int| 0 <= k < d.ranges@.len() ==> refusals::range_not_vacuous(#[trigger] d.ranges@[k])),
{
    let mut c = JsonCursor::new(json);
    let ghost s = c.bytes();
    match c.expect(123u8) {
        Ok(()) => {},
        Err(m) => {
            return Err(m);
        },
    }
    let ghost a = c.pos();
    let mut name: Option<String> = None;
    let mut trace_width: Option<usize> = None;
    let mut constraints: Option<Vec<LeanConstraint>> = None;
    let mut ranges: Option<Vec<RangeSpec>> = None;
    loop
        invariant
            c.wf(),
            c.bytes() == s,
            s == json.spec_bytes(),
            c.strict(),
            lex_byte(s, 0, 123) == Some(a),
            sp_members(s, a, (None, None, None, None), true) == sp_members(
                s,
                c.pos(),
                (opt_text(name), trace_width, opt_seq(constraints), opt_seq(ranges)),
                true,
            ),
        decreases s.len() - c.pos(),
    {
        let ghost i = c.pos();
        let ghost f: DescriptorFields = (opt_text(name), trace_width, opt_seq(constraints), opt_seq(ranges));
        proof {
            json::lemma_raw_string_bounds(s, i);
        }
        let (ka, ke) = match c.parse_raw_string() {
            Ok(ae) => ae,
            Err(m) => {
                return Err(m);
            },
        };
        match c.expect(58u8) {
            Ok(()) => {},
            Err(m) => {
                return Err(m);
            },
        }
        if spells_word(&c, ka, ke, "name") {
            match c.parse_string() {
                Ok(t) => {
                    name = Some(t);
                },
                Err(m) => {
                    return Err(m);
                },
            }
        } else if spells_word(&c, ka, ke, "trace_width") {
            let n = match c.parse_int() {
                Ok(n) => n,
                Err(m) => {
                    return Err(m);
                },
            };
            if n < 0 {
                let mut m = String::from_str("negative trace_width ");
                crate::text::push_int(&mut m, n);
                return Err(m);
            }
            trace_width = Some(n as usize);
        } else if spells_word(&c, ka, ke, "constraints") {
            match parse_constraint_array(&mut c) {
                Ok(v) => {
                    constraints = Some(v);
                },
                Err(m) => {
                    return Err(m);
                },
            }
        } else if spells_word(&c, ka, ke, "ranges") {
            match parse_range_array(&mut c) {
                Ok(v) => {
                    ranges = Some(v);
                },
                Err(m) => {
                    return Err(m);
                },
            }
        } else {
            let m = match c.range_text(ka, ke) {
                Some(key) => {
                    let mut m = String::from_str("unknown top-level key \"");
                    push_text(&mut m, key.as_str());
                    push_text(&mut m, "\"");
                    m
                },
                None => String::from_str("invalid utf8 in string"),
            };
            return Err(m);
        }
        let ghost q = c.pos();
        proof {
            lemma_ws_end(s, q);
        }
        let next = c.peek();
        if next == Some(44u8) {
            match c.expect(44u8) {
                Ok(()) => {},
                Err(m) => {
                    return Err(m);
                },
            }
        } else if next == Some(125u8) {
            match c.expect(125u8) {
                Ok(()) => {},
                Err(m) => {
                    return Err(m);
                },
            }
            let res = finish_descriptor(name, trace_width, constraints, ranges);
            proof {
                refusals::lemma_decoded_descriptor_in_field(s);
                if res is Ok {
                    assert(sp_descriptor(s, true) is Some);
                    assert(res->Ok_0.constraints@ == sp_descriptor(s, true)->Some_0.2);
                    assert(res->Ok_0.ranges@ == sp_descriptor(s, true)->Some_0.3);
                }
            }
            return res;
        } else {
            return Err(unexpected("expected ',' or '}' in descriptor object", next));
        }
    }
}

/// The descriptor from its members: `name`, `trace_width` and `constraints`
/// are required; `ranges` defaults to none.
fn finish_descriptor(
    name: Option<String>,
    trace_width: Option<usize>,
    constraints: Option<Vec<LeanConstraint>>,
    ranges: Option<Vec<RangeSpec>>,
) -> (r: Result<LeanDescriptor, String>)
    ensures
        match (opt_text(name), trace_width, opt_seq(constraints)) {
            (Some(n), Some(w), Some(cs)) => r matches Ok(d) && d.name@ == n && d.trace_width == w
                && d.constraints@ == cs && d.ranges@ == (match opt_seq(ranges) {
                Some(rs) => rs,
                None => seq![],
            }),
            _ => r is Err,
        },
{
    let name = match name {
        Some(n) => n,
        None => {
            return Err(String::from_str("descriptor missing \"name\""));
        },
    };
    let trace_width = match trace_width {
        Some(w) => w,
        None => {
            return Err(String::from_str("descriptor missing \"trace_width\""));
        },
    };
    let constraints = match constraints {
        Some(cs) => cs,
        None => {
            return Err(String::from_str("descriptor missing \"constraints\""));
        },
    };
    let ranges = match ranges {
        Some(rs) => rs,
        None => Vec::new(),
    };
    Ok(LeanDescriptor { name, trace_width, constraints, ranges })
}

/// Reduce a signed `i64` into a canonical `BabyBear`: `c mod p`, lifted into
/// `[0, p)` for negative `c`.
pub fn i64_to_babybear(c: i64) -> (r: BabyBear)
    ensures
        r.value() as int == (c as int) % (BABYBEAR_P as int),
{
    let p: u64 = BABYBEAR_P as u64;
    if c >= 0 {
        let m: u64 = (c as u64) % p;
        BabyBear::new(m as u32)
    } else {
        let n: u64 = (0i128 - c as i128) as u64;
        let m: u64 = n % p;
        let r: u64 = if m == 0 { 0 } else { p - m };
        proof {
            let pi = p as int;
            let q = (n as int) / pi;
            vstd::arithmetic::div_mod::lemma_fundamental_div_mod(n as int, pi);
            if m == 0 {
                assert(c as int == pi * (-q) + 0);
                vstd::arithmetic::div_mod::lemma_mod_multiples_vanish(-q, 0, pi);
            } else {
                assert(c as int == pi * (-q - 1) + (pi - m)) by (nonlinear_arith)
                    requires
                        c as int == -(n as int),
                        n as int == pi * q + m as int,
                ;
                vstd::arithmetic::div_mod::lemma_mod_multiples_vanish(-q - 1, pi - m, pi);
                vstd::arithmetic::div_mod::lemma_small_mod((pi - m) as nat, pi as nat);
            }
        }
        BabyBear::new(r as u32)
    }
}

/// The trace height: each single-row gate holds on every copy of its row.
pub const MIN_TRACE_HEIGHT: usize = 4;

/// The field element of a signed constant, `c mod p`.
pub open spec fn felt_of_i64(c: i64) -> BabyBear {
    BabyBear::from_spec(((c as int) % (BABYBEAR_P as int)) as u32)
}

/// Bit `i` of a natural number.
pub open spec fn bit_of(v: int, i: nat) -> int {
    (v / (pow2(i) as int)) % 2
}

/// The low `bits` bits of `v`, least significant first, as field elements.
pub open spec fn low_bits(v: int, bits: nat) -> Seq<BabyBear> {
    Seq::new(bits, |i: int| BabyBear::from_spec(bit_of(v, i as nat) as u32))
}

/// The weighted sum `Σ cells[i] · 2^i` of a block of aux cells.
pub open spec fn recompose(cells: Seq<BabyBear>) -> int
    decreases cells.len(),
{
    if cells.len() == 0 {
        0
    } else {
        recompose(cells.drop_last()) + cells.last().value() * pow2((cells.len() - 1) as nat)
    }
}

/// Every cell of the block is `0` or `1`.
pub open spec fn boolean_cells(cells: Seq<BabyBear>) -> bool {
    forall|i: int| 0 <= i < cells.len() ==> (#[trigger] cells[i]).value() == 0 || cells[i].value() == 1
}

/// The gates of one range check hold on a row: the `bits` aux cells from
/// `off` on are boolean, and their weighted sum is the wire's value mod `p`.
pub open spec fn range_gates_hold(row: Seq<BabyBear>, wire: int, off: int, bits: nat) -> bool {
    &&& 0 <= wire < row.len()
    &&& 0 <= off && off + bits <= row.len()
    &&& boolean_cells(row.subrange(off, off + bits))
    &&& recompose(row.subrange(off, off + bits)) % (BABYBEAR_P as int) == row[wire].value() as int
}

/// Boolean cells recompose to a value in `[0, 2^len)`.
pub proof fn lemma_recompose_bound(cells: Seq<BabyBear>)
    requires
        boolean_cells(cells),
    ensures
        0 <= recompose(cells) < pow2(cells.len()),
    decreases cells.len(),
{
    vstd::arithmetic::power2::lemma_pow2_pos(cells.len());
    if cells.len() > 0 {
        let n = (cells.len() - 1) as nat;
        let init = cells.drop_last();
        assert(boolean_cells(init)) by {
            assert forall|i: int| 0 <= i < init.len() implies (#[trigger] init[i]).value() == 0 || init[i].value() == 1 by {
                assert(init[i] == cells[i]);
            }
        }
        lemma_recompose_bound(init);
        vstd::arithmetic::power2::lemma_pow2_unfold(cells.len());
        vstd::arithmetic::power2::lemma_pow2_pos(n);
        assert(cells.last() == cells[cells.len() - 1]);
        let b = cells.last().value() as int;
        assert(0 <= b * pow2(n) <= pow2(n)) by (nonlinear_arith)
            requires
                b == 0 || b == 1,
                pow2(n) > 0,
        ;
    }
}

/// **A range check forces its range**: when the gates of a check narrower
/// than the vacuous width hold on a row, the wire's value is below
/// `2^bits`. A wire outside its range has no boolean cells that recompose
/// to it.
pub proof fn lemma_range_gates_force_range(row: Seq<BabyBear>, wire: int, off: int, bits: nat)
    requires
        bits < VACUOUS_RANGE_BITS,
        range_gates_hold(row, wire, off, bits),
    ensures
        (row[wire].value() as int) < pow2(bits),
{
    let cells = row.subrange(off, off + bits);
    lemma_recompose_bound(cells);
    vstd::arithmetic::power2::lemma2_to64();
    if bits < 30 {
        vstd::arithmetic::power2::lemma_pow2_strictly_increases(bits, 30);
    }
    vstd::arithmetic::div_mod::lemma_small_mod(recompose(cells) as nat, BABYBEAR_P as nat);
}

/// The low bits of `v` are boolean and recompose to `v mod 2^bits`.
pub proof fn lemma_low_bits_recompose(v: int, bits: nat)
    requires
        0 <= v,
    ensures
        boolean_cells(low_bits(v, bits)),
        recompose(low_bits(v, bits)) == v % (pow2(bits) as int),
    decreases bits,
{
    let cells = low_bits(v, bits);
    vstd::arithmetic::power2::lemma_pow2_pos(bits);
    assert forall|i: int| 0 <= i < cells.len() implies (#[trigger] cells[i]).value() == 0 || cells[i].value() == 1 by {
        vstd::arithmetic::power2::lemma_pow2_pos(i as nat);
        let b = bit_of(v, i as nat);
        assert(0 <= b < 2);
        BabyBear::lemma_from_spec_value(b as u32);
    }
    if bits == 0 {
        vstd::arithmetic::power2::lemma2_to64();
        assert(cells.len() == 0);
        assert(v % 1 == 0);
    } else {
        let n = (bits - 1) as nat;
        lemma_low_bits_recompose(v, n);
        assert(cells.drop_last() =~= low_bits(v, n));
        vstd::arithmetic::power2::lemma_pow2_pos(n);
        vstd::arithmetic::power2::lemma_pow2_unfold(bits);
        let b = bit_of(v, n);
        BabyBear::lemma_from_spec_value(b as u32);
        assert(cells.last().value() == b);
        vstd::arithmetic::div_mod::lemma_breakdown(v, pow2(n) as int, 2);
        assert(pow2(n) as int * 2 == pow2(bits));
        assert(recompose(cells) == v % (pow2(n) as int) + b * pow2(n));
        assert(v % (pow2(bits) as int) == pow2(n) * ((v / (pow2(n) as int)) % 2) + v % (pow2(n) as int));
        assert(b * pow2(n) == pow2(n) * ((v / (pow2(n) as int)) % 2)) by (nonlinear_arith)
            requires
                b == (v / (pow2(n) as int)) % 2,
        ;
    }
}

/// **An in-range wire satisfies its range check**: a wire whose value is
/// below `2^bits`, with the low bits of that value in its aux cells (as the
/// trace builder writes them), satisfies the check's gates.
pub proof fn lemma_range_gates_admit(row: Seq<BabyBear>, wire: int, off: int, bits: nat)
    requires
        0 <= wire < row.len(),
        0 <= off && off + bits <= row.len(),
        (row[wire].value() as int) < pow2(bits),
        row.subrange(off, off + bits) == low_bits(row[wire].value() as int, bits),
        row[wire].value() < BABYBEAR_P,
    ensures
        range_gates_hold(row, wire, off, bits),
{
    let v = row[wire].value() as int;
    lemma_low_bits_recompose(v, bits);
    vstd::arithmetic::div_mod::lemma_small_mod(v as nat, pow2(bits));
    vstd::arithmetic::div_mod::lemma_small_mod(v as nat, BABYBEAR_P as nat);
}

/// The bit-decomposition aux columns of a row: for each range check in
/// order, the low `bits` bits of its wire's field representative.
pub open spec fn range_aux(ranges: Seq<RangeSpec>, a: Seq<i64>) -> Seq<BabyBear>
    decreases ranges.len(),
{
    if ranges.len() == 0 {
        seq![]
    } else {
        range_aux(ranges.drop_last(), a) + low_bits(
            (a[ranges.last().wire as int] as int) % (BABYBEAR_P as int),
            ranges.last().bits as nat,
        )
    }
}

/// The trace row of an assignment: the base wires reduced into the field,
/// then the range aux columns; a single zero column when the AIR has no
/// columns at all.
pub open spec fn trace_row(trace_width: usize, ranges: Seq<RangeSpec>, a: Seq<i64>) -> Seq<BabyBear> {
    if trace_width + sum_bits(ranges) == 0 {
        seq![BabyBear::spec_zero()]
    } else {
        Seq::new(a.len(), |i: int| felt_of_i64(a[i])) + range_aux(ranges, a)
    }
}

/// A row satisfies a descriptor: both sides of every constraint take the
/// same value on it, and the gates of every range check hold on its aux
/// block (the blocks follow the base wires, in range order).
pub open spec fn row_satisfies(trace_width: usize, constraints: Seq<LeanConstraint>, ranges: Seq<RangeSpec>, row: Seq<BabyBear>) -> bool {
    &&& forall|k: int|
        0 <= k < constraints.len() ==> expr_value((#[trigger] constraints[k]).lhs, row) == expr_value(constraints[k].rhs, row)
    &&& forall|ri: int|
        0 <= ri < ranges.len() ==> range_gates_hold(
            row,
            (#[trigger] ranges[ri]).wire as int,
            trace_width + sum_bits(ranges.take(ri)),
            ranges[ri].bits as nat,
        )
}

/// The aux columns of a prefix of the range checks are a prefix of the aux
/// columns, and the aux columns have one cell per declared bit.
proof fn lemma_range_aux_prefix(rs: Seq<RangeSpec>, a: Seq<i64>, k: int)
    requires
        0 <= k <= rs.len(),
    ensures
        range_aux(rs, a).len() == sum_bits(rs),
        sum_bits(rs.take(k)) <= sum_bits(rs),
        range_aux(rs, a).subrange(0, sum_bits(rs.take(k)) as int) == range_aux(rs.take(k), a),
    decreases rs.len(),
{
    if rs.len() == 0 {
        assert(rs.take(k) =~= rs);
    } else if k == rs.len() {
        assert(rs.take(k) =~= rs);
        lemma_range_aux_prefix(rs.drop_last(), a, 0);
    } else {
        let init = rs.drop_last();
        lemma_range_aux_prefix(init, a, k);
        assert(init.take(k) =~= rs.take(k));
        assert(range_aux(rs, a).subrange(0, sum_bits(rs.take(k)) as int) =~= range_aux(init, a).subrange(
            0,
            sum_bits(init.take(k)) as int,
        ));
    }
}

/// **An assignment's trace row passes exactly the range checks whose wires
/// are in range**: on the row [`build_trace`] writes, the gates of range
/// check `ri` hold if and only if the wire's field value is below
/// `2^bits`.
pub proof fn lemma_trace_row_range_checks(trace_width: usize, ranges: Seq<RangeSpec>, a: Seq<i64>, ri: int)
    requires
        a.len() == trace_width,
        trace_width + sum_bits(ranges) > 0,
        0 <= ri < ranges.len(),
        ranges[ri].wire < trace_width,
        ranges[ri].bits < VACUOUS_RANGE_BITS,
    ensures
        range_gates_hold(
            trace_row(trace_width, ranges, a),
            ranges[ri].wire as int,
            trace_width + sum_bits(ranges.take(ri)),
            ranges[ri].bits as nat,
        ) <==> (a[ranges[ri].wire as int] as int) % (BABYBEAR_P as int) < pow2(ranges[ri].bits as nat),
{
    let row = trace_row(trace_width, ranges, a);
    let w = ranges[ri].wire as int;
    let bits = ranges[ri].bits as nat;
    let lo = sum_bits(ranges.take(ri));
    let base = Seq::new(a.len(), |i: int| felt_of_i64(a[i]));
    let aux = range_aux(ranges, a);
    let v = (a[w] as int) % (BABYBEAR_P as int);
    lemma_range_aux_prefix(ranges, a, ri + 1);
    lemma_range_aux_prefix(ranges.take(ri + 1), a, ri);
    assert(ranges.take(ri + 1).take(ri) =~= ranges.take(ri));
    assert(ranges.take(ri + 1).drop_last() =~= ranges.take(ri));
    assert(ranges.take(ri + 1).last() == ranges[ri]);
    assert(sum_bits(ranges.take(ri + 1)) == lo + bits);
    assert(range_aux(ranges.take(ri + 1), a) == range_aux(ranges.take(ri), a) + low_bits(v, bits));
    assert(aux.subrange(lo as int, (lo + bits) as int) =~= low_bits(v, bits)) by {
        assert(aux.subrange(0, (lo + bits) as int) == range_aux(ranges.take(ri + 1), a));
        assert forall|i: int| 0 <= i < bits implies aux.subrange(lo as int, (lo + bits) as int)[i] == low_bits(v, bits)[i] by {
            assert(aux.subrange(0, (lo + bits) as int)[lo + i] == aux[lo + i]);
            assert(range_aux(ranges.take(ri), a).len() == lo);
        }
    }
    assert(row == base + aux);
    assert(row.subrange(trace_width + lo, trace_width + lo + bits) =~= aux.subrange(lo as int, (lo + bits) as int));
    assert(row[w] == felt_of_i64(a[w]));
    BabyBear::lemma_from_spec_value(v as u32);
    assert(row[w].value() == v);
    if v < pow2(bits) {
        lemma_range_gates_admit(row, w, trace_width + lo, bits);
    }
    if range_gates_hold(row, w, trace_width + lo, bits) {
        lemma_range_gates_force_range(row, w, trace_width + lo, bits);
    }
}

/// **What the trace of an assignment satisfies**: the row
/// [`build_trace`] writes satisfies the descriptor exactly when every
/// constraint holds on it and every range-checked wire's field value is
/// below `2^bits`.
pub proof fn lemma_trace_row_satisfies(trace_width: usize, constraints: Seq<LeanConstraint>, ranges: Seq<RangeSpec>, a: Seq<i64>)
    requires
        a.len() == trace_width,
        trace_width + sum_bits(ranges) > 0,
        forall|ri: int| 0 <= ri < ranges.len() ==> (#[trigger] ranges[ri]).wire < trace_width && ranges[ri].bits < VACUOUS_RANGE_BITS,
    ensures
        row_satisfies(trace_width, constraints, ranges, trace_row(trace_width, ranges, a)) <==> ((forall|k: int|
            0 <= k < constraints.len() ==> expr_value((#[trigger] constraints[k]).lhs, trace_row(trace_width, ranges, a))
                == expr_value(constraints[k].rhs, trace_row(trace_width, ranges, a))) && (forall|ri: int|
            0 <= ri < ranges.len() ==> (a[(#[trigger] ranges[ri]).wire as int] as int) % (BABYBEAR_P as int) < pow2(
                ranges[ri].bits as nat,
            ))),
{
    assert forall|ri: int| 0 <= ri < ranges.len() implies range_gates_hold(
        trace_row(trace_width, ranges, a),
        (#[trigger] ranges[ri]).wire as int,
        trace_width + sum_bits(ranges.take(ri)),
        ranges[ri].bits as nat,
    ) <==> (a[ranges[ri].wire as int] as int) % (BABYBEAR_P as int) < pow2(ranges[ri].bits as nat) by {
        lemma_trace_row_range_checks(trace_width, ranges, a, ri);
    }
}

/// **The trace of an assignment**: its row (see [`trace_row`]) repeated
/// [`MIN_TRACE_HEIGHT`] times. A wire outside its range has no bits that
/// recompose to its field value, so the recomposition gate fails on it.
pub fn build_trace(desc: &LeanDescriptor, assignment: &[i64]) -> (r: Vec<Vec<BabyBear>>)
    requires
        assignment@.len() == desc.trace_width,
        desc.trace_width + sum_bits(desc.ranges@) <= usize::MAX,
        forall|i: int| 0 <= i < desc.ranges@.len() ==> (#[trigger] desc.ranges@[i]).wire < desc.trace_width
            && desc.ranges@[i].bits <= 64,
    ensures
        r@.len() == MIN_TRACE_HEIGHT,
        forall|k: int| 0 <= k < MIN_TRACE_HEIGHT ==> (#[trigger] r@[k])@ == trace_row(
            desc.trace_width,
            desc.ranges@,
            assignment@,
        ),
{
    let width = desc.air_width();
    let mut row: Vec<BabyBear> = Vec::new();
    if width == 0 {
        row.push(BabyBear::zero());
        assert(row@ =~= seq![BabyBear::spec_zero()]);
    } else {
        let mut i: usize = 0;
        while i < assignment.len()
            invariant
                i <= assignment@.len(),
                row@ =~= Seq::new(i as nat, |j: int| felt_of_i64(assignment@[j])),
            decreases assignment@.len() - i,
        {
            let f = i64_to_babybear(assignment[i]);
            proof {
                let g = felt_of_i64(assignment@[i as int]);
                BabyBear::lemma_from_spec_value(((assignment@[i as int] as int) % (BABYBEAR_P as int)) as u32);
                BabyBear::lemma_value_injective(f, g);
            }
            row.push(f);
            i = i + 1;
        }
        let mut ri: usize = 0;
        while ri < desc.ranges.len()
            invariant
                ri <= desc.ranges@.len(),
                assignment@.len() == desc.trace_width,
                forall|t: int| 0 <= t < desc.ranges@.len() ==> (#[trigger] desc.ranges@[t]).wire < desc.trace_width
                    && desc.ranges@[t].bits <= 64,
                row@ =~= Seq::new(assignment@.len(), |j: int| felt_of_i64(assignment@[j])) + range_aux(
                    desc.ranges@.take(ri as int),
                    assignment@,
                ),
            decreases desc.ranges@.len() - ri,
        {
            let r = desc.ranges[ri];
            let fv: u64 = i64_to_babybear(assignment[r.wire]).as_u32() as u64;
            let ghost base = row@;
            let mut b: usize = 0;
            while b < r.bits
                invariant
                    b <= r.bits <= 64,
                    row@ =~= base + low_bits(fv as int, b as nat),
                decreases r.bits - b,
            {
                let bit: u64 = (fv >> (b as u64)) & 1u64;
                proof {
                    vstd::bits::lemma_u64_shr_is_div(fv, b as u64);
                    let sh = fv >> (b as u64);
                    assert(sh & 1u64 == sh % 2) by (bit_vector);
                }
                row.push(BabyBear::new(bit as u32));
                b = b + 1;
            }
            proof {
                let t = desc.ranges@.take(ri + 1);
                assert(t.drop_last() =~= desc.ranges@.take(ri as int));
                assert(t.last() == r);
            }
            ri = ri + 1;
        }
        assert(desc.ranges@.take(desc.ranges@.len() as int) =~= desc.ranges@);
    }
    let mut trace: Vec<Vec<BabyBear>> = Vec::new();
    let mut k: usize = 0;
    while k < MIN_TRACE_HEIGHT
        invariant
            k <= MIN_TRACE_HEIGHT,
            trace@.len() == k,
            forall|t: int| 0 <= t < k ==> (#[trigger] trace@[t])@ == row@,
        decreases MIN_TRACE_HEIGHT - k,
    {
        trace.push(vstd::slice::slice_to_vec(row.as_slice()));
        k = k + 1;
    }
    trace
}


/// A descriptor wrapped as the AIR that interprets it.
pub struct LeanDescriptorAir {
    /// The descriptor whose constraints the AIR enforces.
    pub desc: LeanDescriptor,
}

impl LeanDescriptorAir {
    /// Wrap a descriptor.
    pub fn new(desc: LeanDescriptor) -> (r: Self)
        ensures
            r.desc == desc,
    {
        LeanDescriptorAir { desc }
    }

    /// The full trace width: base wires plus the range aux columns.
    pub fn width(&self) -> (r: usize)
        requires
            self.desc.trace_width + sum_bits(self.desc.ranges@) <= usize::MAX,
        ensures
            r == self.desc.trace_width + sum_bits(self.desc.ranges@),
    {
        self.desc.air_width()
    }

    /// The single-row gates read no public values.
    pub fn num_public_values(&self) -> (r: usize)
        ensures
            r == 0,
    {
        0
    }

    /// The AIR's constraint degree bound (see [`descriptor_degree`]).
    pub fn max_constraint_degree(&self) -> (r: Option<usize>)
        requires
            forall|i: int| 0 <= i < self.desc.constraints@.len() ==> degree_fits(#[trigger] self.desc.constraints@[i].lhs)
                && degree_fits(self.desc.constraints@[i].rhs),
        ensures
            r matches Some(d) && d == descriptor_degree(self.desc.constraints@, self.desc.ranges@.len() > 0),
    {
        Some(self.desc.max_degree())
    }
}

} // verus!
