//! The multi-row EffectVM descriptor: gates, transitions, boundary
//! constraints and public-input bindings over the EffectVM row layout, the
//! ordered Poseidon2 hash sites and the range checks; its decoder from the
//! emitted JSON and the bookkeeping of the AIR that interprets it.
use vstd::prelude::*;
use super::json::{ws_end, lex_byte, lex_raw_string, lex_string, lex_int, lemma_ws_end, lemma_raw_string_bounds, push_text};
use super::json;
use super::{
    LeanExpr, RangeSpec, JsonCursor, spec_max_var, sum_bits, range_in_bounds, 
    spells, sp_expr, sp_array, sp_items, range_item, opt_text, opt_seq, spells_word, sp_obj, sp_object,
    unexpected, parse_expr, parse_range_array, sum_range_bits,
};
use crate::text::{decimal_spec, push_num};
use vstd::string::StringSliceAdditionalSpecFns;

verus! {

/// A boundary-row tag: the first or the last trace row.
#[derive(Clone, Copy, Debug, PartialEq, Eq)]
pub enum VmRow {
    /// The first trace row.
    First,
    /// The last trace row.
    Last,
}

/// The EffectVM constraint forms.
#[derive(Clone, Debug, PartialEq, Eq)]
pub enum VmConstraint {
    /// Per-row gate `body == 0` on the transition domain.
    Gate(LeanExpr),
    /// Transition continuity `next.state_before[hi] == this.state_after[lo]`.
    Transition { hi: usize, lo: usize },
    /// `body == 0` on the tagged boundary row.
    Boundary { row: VmRow, body: LeanExpr },
    /// `local[col] == public_values[pi_index]` on the tagged boundary row.
    PiBinding { row: VmRow, col: usize, pi_index: usize },
}

/// A hash-site input slot.
#[derive(Clone, Copy, Debug, PartialEq, Eq)]
pub enum HashInput {
    /// Trace column `c` of the current row.
    Col(usize),
    /// The digest of an earlier site (0-based, in site order).
    Digest(usize),
    /// The field constant zero.
    Zero,
}

/// A Poseidon2 hash site: its digest is bound to `digest_col`, and its
/// `arity` inputs are absorbed in order.
#[derive(Clone, Debug, PartialEq, Eq)]
pub struct VmHashSite {
    /// The trace column the digest is bound to.
    pub digest_col: usize,
    /// How many inputs are absorbed (2 or 4); also the capacity tag.
    pub arity: usize,
    /// The absorbed inputs, in order.
    pub inputs: Vec<HashInput>,
}

impl View for VmHashSite {
    type V = (usize, usize, Seq<HashInput>);

    open spec fn view(&self) -> (usize, usize, Seq<HashInput>) {
        (self.digest_col, self.arity, self.inputs@)
    }
}

/// The views of a list of hash sites.
pub open spec fn site_views(v: Seq<VmHashSite>) -> Seq<(usize, usize, Seq<HashInput>)> {
    v.map_values(|x: VmHashSite| x@)
}

/// An EffectVM descriptor.
#[derive(Clone, Debug, PartialEq, Eq)]
pub struct EffectVmDescriptor {
    /// AIR identity string.
    pub name: String,
    /// The base trace width.
    pub trace_width: usize,
    /// The number of public-input slots the bindings may reference.
    pub public_input_count: usize,
    /// The constraints.
    pub constraints: Vec<VmConstraint>,
    /// The ordered hash sites (site `i` owns aux block `i`).
    pub hash_sites: Vec<VmHashSite>,
    /// The range checks.
    pub ranges: Vec<RangeSpec>,
}

/// The number of effect selector columns of the EffectVM row.
pub const EFFECTVM_NUM_EFFECTS: usize = 54;
/// The number of columns of one state block.
pub const EFFECTVM_STATE_SIZE: usize = 14;
/// The first column of the before-state block.
pub const EFFECTVM_STATE_BEFORE_BASE: usize = EFFECTVM_NUM_EFFECTS;
/// The first column of the after-state block.
pub const EFFECTVM_STATE_AFTER_BASE: usize = EFFECTVM_NUM_EFFECTS + EFFECTVM_STATE_SIZE + 8;
/// The aux columns one hash site's Poseidon2 permutation witness occupies.
pub const SITE_AUX_COLS: usize = 352;

/// A constraint reads only columns and public inputs that exist.
pub open spec fn vm_constraint_in_bounds(c: VmConstraint, width: usize, pi_count: usize) -> bool {
    match c {
        VmConstraint::Gate(body) => spec_max_var(body) matches Some(m) ==> m < width,
        VmConstraint::Transition { hi, lo } => EFFECTVM_STATE_BEFORE_BASE + hi < width
            && EFFECTVM_STATE_AFTER_BASE + lo < width,
        VmConstraint::Boundary { row: _, body } => spec_max_var(body) matches Some(m) ==> m < width,
        VmConstraint::PiBinding { row: _, col, pi_index } => col < width && pi_index < pi_count,
    }
}

/// An input of site `si` reads an existing column or a strictly earlier digest.
pub open spec fn input_in_bounds(inp: HashInput, si: int, width: usize) -> bool {
    match inp {
        HashInput::Col(c) => c < width,
        HashInput::Digest(k) => k < si,
        HashInput::Zero => true,
    }
}

/// Site `si` binds an existing column and has exactly `arity` inputs, each in bounds.
pub open spec fn site_in_bounds(s: VmHashSite, si: int, width: usize) -> bool {
    &&& s.digest_col < width
    &&& s.inputs@.len() == s.arity
    &&& forall|j: int| 0 <= j < s.inputs@.len() ==> input_in_bounds(#[trigger] s.inputs@[j], si, width)
}

/// Every constraint, site and range of the descriptor is in bounds.
pub open spec fn vm_in_bounds(d: EffectVmDescriptor) -> bool {
    &&& forall|i: int| 0 <= i < d.constraints@.len() ==> vm_constraint_in_bounds(
        #[trigger] d.constraints@[i],
        d.trace_width,
        d.public_input_count,
    )
    &&& forall|i: int| 0 <= i < d.hash_sites@.len() ==> site_in_bounds(#[trigger] d.hash_sites@[i], i, d.trace_width)
    &&& forall|i: int| 0 <= i < d.ranges@.len() ==> range_in_bounds(#[trigger] d.ranges@[i], d.trace_width)
}

impl EffectVmDescriptor {
    /// The number of bit-decomposition aux columns, `Σ bits`.
    pub fn total_range_bits(&self) -> (r: usize)
        requires
            sum_bits(self.ranges@) <= usize::MAX,
        ensures
            r == sum_bits(self.ranges@),
    {
        assert(self.ranges@.take(self.ranges@.len() as int) =~= self.ranges@);
        sum_range_bits(&self.ranges, self.ranges.len())
    }

    /// The full AIR width: base wires, one Poseidon2 aux block per hash
    /// site, then the range bits.
    pub fn air_width(&self) -> (r: usize)
        requires
            self.trace_width + self.hash_sites@.len() * SITE_AUX_COLS + sum_bits(self.ranges@) <= usize::MAX,
        ensures
            r == self.trace_width + self.hash_sites@.len() * SITE_AUX_COLS + sum_bits(self.ranges@),
    {
        let bits = self.total_range_bits();
        self.trace_width + self.hash_sites.len() * SITE_AUX_COLS + bits
    }

    /// The first column of hash site `i`'s aux block.
    pub fn site_aux_base(&self, i: usize) -> (r: usize)
        requires
            self.trace_width + i * SITE_AUX_COLS <= usize::MAX,
        ensures
            r == self.trace_width + i * SITE_AUX_COLS,
    {
        self.trace_width + i * SITE_AUX_COLS
    }

    /// The first column of the `range_index`-th range check's bits, after
    /// all hash aux blocks.
    pub fn range_aux_offset(&self, range_index: usize) -> (r: usize)
        requires
            range_index <= self.ranges@.len(),
            self.trace_width + self.hash_sites@.len() * SITE_AUX_COLS + sum_bits(
                self.ranges@.take(range_index as int),
            ) <= usize::MAX,
        ensures
            r == self.trace_width + self.hash_sites@.len() * SITE_AUX_COLS + sum_bits(
                self.ranges@.take(range_index as int),
            ),
    {
        let bits = sum_range_bits(&self.ranges, range_index);
        self.trace_width + self.hash_sites.len() * SITE_AUX_COLS + bits
    }

    /// Check every column and public-input index against the descriptor's
    /// sizes; the first offending constraint, site or range is reported.
    pub fn check_bounds(&self) -> (r: Result<(), String>)
        ensures
            r is Ok <==> vm_in_bounds(*self),
    {
        let tw = self.trace_width;
        let mut ci: usize = 0;
        while ci < self.constraints.len()
            invariant
                ci <= self.constraints@.len(),
                tw == self.trace_width,
                forall|i: int| 0 <= i < ci ==> vm_constraint_in_bounds(
                    #[trigger] self.constraints@[i],
                    self.trace_width,
                    self.public_input_count,
                ),
            decreases self.constraints@.len() - ci,
        {
            match &self.constraints[ci] {
                VmConstraint::Gate(body) => {
                    match body.max_var() {
                        Some(m) => {
                            if m >= tw {
                                return Err(index_error("gate ", ci, " references column ", m, " >= trace_width ", tw));
                            }
                        },
                        None => {},
                    }
                },
                VmConstraint::Transition { hi, lo } => {
                    if *hi >= tw || EFFECTVM_STATE_BEFORE_BASE >= tw - *hi || *lo >= tw || EFFECTVM_STATE_AFTER_BASE >= tw - *lo {
                        let mut m = String::from_str("transition ");
                        push_num(&mut m, ci as u64);
                        push_text(&mut m, " out of bounds");
                        return Err(m);
                    }
                },
                VmConstraint::Boundary { row: _, body } => {
                    match body.max_var() {
                        Some(m) => {
                            if m >= tw {
                                return Err(index_error("boundary ", ci, " references column ", m, " >= trace_width ", tw));
                            }
                        },
                        None => {},
                    }
                },
                VmConstraint::PiBinding { row: _, col, pi_index } => {
                    if *col >= tw {
                        let mut m = String::from_str("pi_binding ");
                        push_num(&mut m, ci as u64);
                        push_text(&mut m, " col ");
                        push_num(&mut m, *col as u64);
                        push_text(&mut m, " out of bounds");
                        return Err(m);
                    }
                    if *pi_index >= self.public_input_count {
                        return Err(index_error("pi_binding ", ci, " pi_index ", *pi_index, " >= public_input_count ", self.public_input_count));
                    }
                },
            }
            ci = ci + 1;
        }
        let mut si: usize = 0;
        while si < self.hash_sites.len()
            invariant
                si <= self.hash_sites@.len(),
                tw == self.trace_width,
                forall|i: int| 0 <= i < self.constraints@.len() ==> vm_constraint_in_bounds(
                    #[trigger] self.constraints@[i],
                    self.trace_width,
                    self.public_input_count,
                ),
                forall|i: int| 0 <= i < si ==> site_in_bounds(#[trigger] self.hash_sites@[i], i, self.trace_width),
            decreases self.hash_sites@.len() - si,
        {
            let site = &self.hash_sites[si];
            if site.digest_col >= tw {
                let mut m = String::from_str("hash site ");
                push_num(&mut m, si as u64);
                push_text(&mut m, " digest_col out of bounds");
                return Err(m);
            }
            if site.inputs.len() != site.arity {
                return Err(index_error("hash site ", si, " arity ", site.arity, " != inputs len ", site.inputs.len()));
            }
            let mut j: usize = 0;
            while j < site.inputs.len()
                invariant
                    j <= site.inputs@.len(),
                    tw == self.trace_width,
                    si < self.hash_sites@.len(),
                    *site == self.hash_sites@[si as int],
                    forall|t: int| 0 <= t < j ==> input_in_bounds(#[trigger] site.inputs@[t], si as int, tw),
                decreases site.inputs@.len() - j,
            {
                match site.inputs[j] {
                    HashInput::Col(c) => {
                        if c >= tw {
                            let mut m = String::from_str("hash site ");
                            push_num(&mut m, si as u64);
                            push_text(&mut m, " col input ");
                            push_num(&mut m, c as u64);
                            push_text(&mut m, " out of bounds");
                            return Err(m);
                        }
                    },
                    HashInput::Digest(k) => {
                        if k >= si {
                            let mut m = String::from_str("hash site ");
                            push_num(&mut m, si as u64);
                            push_text(&mut m, " references digest ");
                            push_num(&mut m, k as u64);
                            push_text(&mut m, " not strictly earlier");
                            return Err(m);
                        }
                    },
                    HashInput::Zero => {},
                }
                j = j + 1;
            }
            si = si + 1;
        }
        let mut ri: usize = 0;
        while ri < self.ranges.len()
            invariant
                ri <= self.ranges@.len(),
                tw == self.trace_width,
                forall|i: int| 0 <= i < self.constraints@.len() ==> vm_constraint_in_bounds(
                    #[trigger] self.constraints@[i],
                    self.trace_width,
                    self.public_input_count,
                ),
                forall|i: int| 0 <= i < self.hash_sites@.len() ==> site_in_bounds(#[trigger] self.hash_sites@[i], i, self.trace_width),
                forall|i: int| 0 <= i < ri ==> range_in_bounds(#[trigger] self.ranges@[i], self.trace_width),
            decreases self.ranges@.len() - ri,
        {
            let r = self.ranges[ri];
            if r.wire >= tw {
                let mut m = String::from_str("range ");
                push_num(&mut m, ri as u64);
                push_text(&mut m, " wire ");
                push_num(&mut m, r.wire as u64);
                push_text(&mut m, " out of bounds");
                return Err(m);
            }
            if r.bits > 63 {
                let mut m = String::from_str("range ");
                push_num(&mut m, ri as u64);
                push_text(&mut m, " bits ");
                push_num(&mut m, r.bits as u64);
                push_text(&mut m, " > 63");
                return Err(m);
            }
            ri = ri + 1;
        }
        Ok(())
    }
}

/// `"<a><i><b><x><c><y>"`, for a refusal naming two numbers.
fn index_error(a: &str, i: usize, b: &str, x: usize, c: &str, y: usize) -> (r: String)
    ensures
        r@ == a@ + decimal_spec(i as nat) + b@ + decimal_spec(x as nat) + c@ + decimal_spec(y as nat),
{
    let mut m = String::from_str(a);
    push_num(&mut m, i as u64);
    push_text(&mut m, b);
    push_num(&mut m, x as u64);
    push_text(&mut m, c);
    push_num(&mut m, y as u64);
    m
}


// ---------------------------------------------------------------------------
// The EffectVM descriptor grammar
// ---------------------------------------------------------------------------

/// A row tag: `"first"` or `"last"`.
pub open spec fn sp_row(s: Seq<u8>, i: int) -> Option<(VmRow, int)> {
    match lex_raw_string(s, i) {
        Some((a, e)) => if spells(s, a, e, "first"@) {
            Some((VmRow::First, e + 1))
        } else if spells(s, a, e, "last"@) {
            Some((VmRow::Last, e + 1))
        } else {
            None
        },
        None => None,
    }
}

/// The members of an EffectVM constraint object read so far: the raw span
/// of the tag `"t"`, then `"body"`, `"row"`, `"hi"`, `"lo"`, `"col"` and
/// `"pi_index"`.
pub type VmConstraintFields = (
    Option<(int, int)>,
    Option<LeanExpr>,
    Option<VmRow>,
    Option<i64>,
    Option<i64>,
    Option<i64>,
    Option<i64>,
);

/// No member read yet.
pub open spec fn no_vm_fields() -> VmConstraintFields {
    (None, None, None, None, None, None, None)
}

/// One member of an EffectVM constraint object, each key at most once:
/// `"t"` a string, `"body"` an expression, `"row"` a row tag, and the
/// integers `"hi"`, `"lo"`, `"col"`, `"pi_index"`.
pub open spec fn vm_member(strict: bool) -> spec_fn(Seq<u8>, int, int, int, VmConstraintFields) -> Option<(VmConstraintFields, int)> {
    |s: Seq<u8>, ka: int, ke: int, v: int, f: VmConstraintFields|
        if spells(s, ka, ke, "t"@) && f.0 is None {
            match lex_raw_string(s, v) {
                Some((ts, te)) => Some(((Some((ts, te)), f.1, f.2, f.3, f.4, f.5, f.6), te + 1)),
                None => None,
            }
        } else if spells(s, ka, ke, "body"@) && f.1 is None {
            match sp_expr(s, v, strict) {
                Some((e, p)) => Some(((f.0, Some(e), f.2, f.3, f.4, f.5, f.6), p)),
                None => None,
            }
        } else if spells(s, ka, ke, "row"@) && f.2 is None {
            match sp_row(s, v) {
                Some((r, p)) => Some(((f.0, f.1, Some(r), f.3, f.4, f.5, f.6), p)),
                None => None,
            }
        } else if spells(s, ka, ke, "hi"@) && f.3 is None {
            match lex_int(s, v) {
                Some((n, p)) => Some(((f.0, f.1, f.2, Some(n), f.4, f.5, f.6), p)),
                None => None,
            }
        } else if spells(s, ka, ke, "lo"@) && f.4 is None {
            match lex_int(s, v) {
                Some((n, p)) => Some(((f.0, f.1, f.2, f.3, Some(n), f.5, f.6), p)),
                None => None,
            }
        } else if spells(s, ka, ke, "col"@) && f.5 is None {
            match lex_int(s, v) {
                Some((n, p)) => Some(((f.0, f.1, f.2, f.3, f.4, Some(n), f.6), p)),
                None => None,
            }
        } else if spells(s, ka, ke, "pi_index"@) && f.6 is None {
            match lex_int(s, v) {
                Some((n, p)) => Some(((f.0, f.1, f.2, f.3, f.4, f.5, Some(n)), p)),
                None => None,
            }
        } else {
            None
        }
}

/// The constraint its members name: `"gate"` with `"body"`; `"transition"`
/// with `"hi"` and `"lo"`; `"boundary"` with `"row"` and `"body"`;
/// `"pi_binding"` with `"row"`, `"col"` and `"pi_index"`; no other member,
/// and no index negative.
pub open spec fn vm_constraint_of(s: Seq<u8>, f: VmConstraintFields) -> Option<VmConstraint> {
    match f.0 {
        None => None,
        Some((ts, te)) => if spells(s, ts, te, "gate"@) {
            match f {
                (_, Some(body), None, None, None, None, None) => Some(VmConstraint::Gate(body)),
                _ => None,
            }
        } else if spells(s, ts, te, "transition"@) {
            match f {
                (_, None, None, Some(hi), Some(lo), None, None) => if hi < 0 || lo < 0 {
                    None
                } else {
                    Some(VmConstraint::Transition { hi: hi as usize, lo: lo as usize })
                },
                _ => None,
            }
        } else if spells(s, ts, te, "boundary"@) {
            match f {
                (_, Some(body), Some(row), None, None, None, None) => Some(VmConstraint::Boundary { row, body }),
                _ => None,
            }
        } else if spells(s, ts, te, "pi_binding"@) {
            match f {
                (_, None, Some(row), None, None, Some(col), Some(pi)) => if col < 0 || pi < 0 {
                    None
                } else {
                    Some(VmConstraint::PiBinding { row, col: col as usize, pi_index: pi as usize })
                },
                _ => None,
            }
        } else {
            None
        },
    }
}

/// The body of a constraint object after its opening brace, from `i`: the
/// constraint its members name and the position after the closing brace.
pub open spec fn sp_vm_body(s: Seq<u8>, i: int, strict: bool) -> Option<(VmConstraint, int)> {
    match sp_obj(s, i, no_vm_fields(), vm_member(strict)) {
        Some((f, p)) => match vm_constraint_of(s, f) {
            Some(x) => Some((x, p)),
            None => None,
        },
        None => None,
    }
}

/// `<c>`: an object whose members, in any order, are
/// `"t":"gate","body":<expr>` | `"t":"transition","hi":i,"lo":i`
/// | `"t":"boundary","row":R,"body":<expr>` | `"t":"pi_binding","row":R,"col":i,"pi_index":i`,
/// with `R` one of `"first"`, `"last"`; no index may be negative.
#[verifier::opaque]
pub open spec fn sp_vm_constraint(s: Seq<u8>, i: int, strict: bool) -> Option<(VmConstraint, int)> {
    match lex_byte(s, i, 123) {
        None => None,
        Some(a) => sp_vm_body(s, a, strict),
    }
}

/// The members of a hash-input object read so far: the raw span of the tag,
/// `"c"` and `"k"`.
pub type HashInputFields = (Option<(int, int)>, Option<i64>, Option<i64>);

/// One member of a hash-input object, each key at most once.
pub open spec fn input_member() -> spec_fn(Seq<u8>, int, int, int, HashInputFields) -> Option<(HashInputFields, int)> {
    |s: Seq<u8>, ka: int, ke: int, v: int, f: HashInputFields|
        if spells(s, ka, ke, "t"@) && f.0 is None {
            match lex_raw_string(s, v) {
                Some((ts, te)) => Some(((Some((ts, te)), f.1, f.2), te + 1)),
                None => None,
            }
        } else if spells(s, ka, ke, "c"@) && f.1 is None {
            match lex_int(s, v) {
                Some((n, p)) => Some(((f.0, Some(n), f.2), p)),
                None => None,
            }
        } else if spells(s, ka, ke, "k"@) && f.2 is None {
            match lex_int(s, v) {
                Some((n, p)) => Some(((f.0, f.1, Some(n)), p)),
                None => None,
            }
        } else {
            None
        }
}

/// The hash input its members name: `"col"` with `"c"`, `"digest"` with
/// `"k"`, `"zero"` alone; no index negative.
pub open spec fn hash_input_of(s: Seq<u8>, f: HashInputFields) -> Option<HashInput> {
    match f.0 {
        None => None,
        Some((ts, te)) => if spells(s, ts, te, "col"@) {
            match f {
                (_, Some(v), None) => if v < 0 {
                    None
                } else {
                    Some(HashInput::Col(v as usize))
                },
                _ => None,
            }
        } else if spells(s, ts, te, "digest"@) {
            match f {
                (_, None, Some(v)) => if v < 0 {
                    None
                } else {
                    Some(HashInput::Digest(v as usize))
                },
                _ => None,
            }
        } else if spells(s, ts, te, "zero"@) {
            match f {
                (_, None, None) => Some(HashInput::Zero),
                _ => None,
            }
        } else {
            None
        },
    }
}

/// `<inp>`: an object whose members, in any order, are `"t":"col","c":i`
/// | `"t":"digest","k":i` | `"t":"zero"`; no index negative.
#[verifier::opaque]
pub open spec fn sp_hash_input(s: Seq<u8>, i: int) -> Option<(HashInput, int)> {
    match sp_object(s, i, (None, None, None), input_member()) {
        Some((f, p)) => match hash_input_of(s, f) {
            Some(x) => Some((x, p)),
            None => None,
        },
        None => None,
    }
}

/// The hash-input grammar as an array element.
pub open spec fn input_item() -> spec_fn(Seq<u8>, int) -> Option<(HashInput, int)> {
    |s: Seq<u8>, p: int| sp_hash_input(s, p)
}

/// The members of a hash-site object read so far: digest column, arity
/// and inputs.
pub type SiteFields = (Option<i64>, Option<i64>, Option<Seq<HashInput>>);

/// One member of a hash-site object, each key at most once: `"digest_col"`
/// (not negative), `"arity"` (2 or 4), `"inputs"` an array of hash inputs.
pub open spec fn site_member() -> spec_fn(Seq<u8>, int, int, int, SiteFields) -> Option<(SiteFields, int)> {
    |s: Seq<u8>, ka: int, ke: int, v: int, f: SiteFields|
        if spells(s, ka, ke, "digest_col"@) && f.0 is None {
            match lex_int(s, v) {
                Some((n, p)) => if n < 0 {
                    None
                } else {
                    Some(((Some(n), f.1, f.2), p))
                },
                None => None,
            }
        } else if spells(s, ka, ke, "arity"@) && f.1 is None {
            match lex_int(s, v) {
                Some((n, p)) => if !(n == 2 || n == 4) {
                    None
                } else {
                    Some(((f.0, Some(n), f.2), p))
                },
                None => None,
            }
        } else if spells(s, ka, ke, "inputs"@) && f.2 is None {
            match sp_array(s, v, input_item()) {
                Some((ins, p)) => Some(((f.0, f.1, Some(ins)), p)),
                None => None,
            }
        } else {
            None
        }
}

/// `<s>`: an object whose members, in any order, are `"digest_col":i`,
/// `"arity":a` and `"inputs":[<inp>,…]`, with `i` not negative and `a` 2
/// or 4; the view of the site.
#[verifier::opaque]
pub open spec fn sp_hash_site(s: Seq<u8>, i: int) -> Option<((usize, usize, Seq<HashInput>), int)> {
    match sp_object(s, i, (None, None, None), site_member()) {
        Some(((Some(dc), Some(ar), Some(ins)), p)) => Some(((dc as usize, ar as usize, ins), p)),
        _ => None,
    }
}

/// The constraint grammar as an array element.
pub open spec fn vm_constraint_item(strict: bool) -> spec_fn(Seq<u8>, int) -> Option<(VmConstraint, int)> {
    |s: Seq<u8>, p: int| sp_vm_constraint(s, p, strict)
}

/// The hash-site grammar as an array element.
pub open spec fn site_item() -> spec_fn(Seq<u8>, int) -> Option<((usize, usize, Seq<HashInput>), int)> {
    |s: Seq<u8>, p: int| sp_hash_site(s, p)
}

/// The members of an EffectVM descriptor read so far: name, trace width,
/// public-input count, constraints, hash sites, ranges.
pub type VmFields = (
    Option<Seq<char>>,
    Option<usize>,
    Option<usize>,
    Option<Seq<VmConstraint>>,
    Option<Seq<(usize, usize, Seq<HashInput>)>>,
    Option<Seq<RangeSpec>>,
);

/// One member's value, by its key; a later member overwrites an earlier
/// one, and an unknown key is refused.
pub open spec fn sp_vm_member(s: Seq<u8>, ka: int, ke: int, v: int, f: VmFields, strict: bool) -> Option<(VmFields, int)> {
    if spells(s, ka, ke, "name"@) {
        match lex_string(s, v) {
            Some((t, p)) => Some(((Some(t), f.1, f.2, f.3, f.4, f.5), p)),
            None => None,
        }
    } else if spells(s, ka, ke, "trace_width"@) {
        match lex_int(s, v) {
            Some((n, p)) => if n < 0 {
                None
            } else {
                Some(((f.0, Some(n as usize), f.2, f.3, f.4, f.5), p))
            },
            None => None,
        }
    } else if spells(s, ka, ke, "public_input_count"@) {
        match lex_int(s, v) {
            Some((n, p)) => if n < 0 {
                None
            } else {
                Some(((f.0, f.1, Some(n as usize), f.3, f.4, f.5), p))
            },
            None => None,
        }
    } else if spells(s, ka, ke, "constraints"@) {
        match sp_array(s, v, vm_constraint_item(strict)) {
            Some((cs, p)) => Some(((f.0, f.1, f.2, Some(cs), f.4, f.5), p)),
            None => None,
        }
    } else if spells(s, ka, ke, "hash_sites"@) {
        match sp_array(s, v, site_item()) {
            Some((hs, p)) => Some(((f.0, f.1, f.2, f.3, Some(hs), f.5), p)),
            None => None,
        }
    } else if spells(s, ka, ke, "ranges"@) {
        match sp_array(s, v, range_item()) {
            Some((rs, p)) => Some(((f.0, f.1, f.2, f.3, f.4, Some(rs)), p)),
            None => None,
        }
    } else {
        None
    }
}

/// The members of an EffectVM descriptor object from `i` on.
pub open spec fn sp_vm_members(s: Seq<u8>, i: int, f: VmFields, strict: bool) -> Option<(VmFields, int)>
    decreases s.len() - i,
{
    if !(0 <= i <= s.len()) {
        None
    } else {
        match lex_raw_string(s, i) {
            None => None,
            Some((ka, ke)) => match lex_byte(s, ke + 1, 58) {
                None => None,
                Some(v) => match sp_vm_member(s, ka, ke, v, f, strict) {
                    None => None,
                    Some((g, p)) => {
                        let k = ws_end(s, p);
                        if 0 <= k < s.len() && s[k] == 44 {
                            if i < k + 1 <= s.len() {
                                sp_vm_members(s, k + 1, g, strict)
                            } else {
                                None
                            }
                        } else if 0 <= k < s.len() && s[k] == 125 {
                            Some((g, k + 1))
                        } else {
                            None
                        }
                    },
                },
            },
        }
    }
}

/// The value of an optional list, empty when absent.
pub open spec fn or_empty<T>(o: Option<Seq<T>>) -> Seq<T> {
    match o {
        Some(x) => x,
        None => seq![],
    }
}

/// An EffectVM descriptor object: `name`, `trace_width`,
/// `public_input_count` and `constraints` required; `hash_sites` and
/// `ranges` empty when absent.
pub open spec fn sp_vm_descriptor(s: Seq<u8>, strict: bool) -> Option<VmFields> {
    match lex_byte(s, 0, 123) {
        None => None,
        Some(a) => match sp_vm_members(s, a, (None, None, None, None, None, None), strict) {
            None => None,
            Some((f, _)) => if f.0 is Some && f.1 is Some && f.2 is Some && f.3 is Some {
                Some(f)
            } else {
                None
            },
        },
    }
}

// ---------------------------------------------------------------------------
// The EffectVM decoder
// ---------------------------------------------------------------------------

/// A row tag, `"first"` or `"last"`.
fn parse_row(c: &mut JsonCursor) -> (r: Result<VmRow, String>)
    requires
        old(c).wf(),
    ensures
        old(c).same_text(final(c)),
        r is Ok ==> old(c).pos() < final(c).pos(),
        match sp_row(old(c).bytes(), old(c).pos()) {
            Some((row, p)) => r == Ok::<VmRow, String>(row) && final(c).pos() == p,
            None => r is Err,
        },
{
    proof {
        lemma_raw_string_bounds(c.bytes(), c.pos());
    }
    let (a, e) = match c.parse_raw_string() {
        Ok(ae) => ae,
        Err(m) => {
            return Err(m);
        },
    };
    if spells_word(c, a, e, "first") {
        Ok(VmRow::First)
    } else if spells_word(c, a, e, "last") {
        Ok(VmRow::Last)
    } else {
        Err(String::from_str("unknown row tag: expected \"first\" or \"last\""))
    }
}

/// The view of an optional raw span.
pub open spec fn span_view(t: Option<(usize, usize)>) -> Option<(int, int)> {
    match t {
        Some((a, e)) => Some((a as int, e as int)),
        None => None,
    }
}

/// Decode one hash-input object; its members may come in any order.
pub(crate) fn parse_hash_input(c: &mut JsonCursor) -> (r: Result<HashInput, String>)
    requires
        old(c).wf(),
    ensures
        old(c).same_text(final(c)),
        r is Ok ==> old(c).pos() < final(c).pos(),
        match sp_hash_input(old(c).bytes(), old(c).pos()) {
            Some((x, p)) => r == Ok::<HashInput, String>(x) && final(c).pos() == p,
            None => r is Err,
        },
{
    reveal(sp_hash_input);
    let ghost s = c.bytes();
    let ghost i0 = c.pos();
    let ghost m = input_member();
    match c.expect(123u8) {
        Ok(()) => {},
        Err(e) => {
            return Err(e);
        },
    }
    let ghost a = c.pos();
    let mut tag: Option<(usize, usize)> = None;
    let mut cv: Option<i64> = None;
    let mut kv: Option<i64> = None;
    loop
        invariant
            c.wf(),
            c.bytes() == s,
            s == old(c).bytes(),
            c.strict() == old(c).strict(),
            i0 == old(c).pos(),
            i0 < c.pos(),
            m == input_member(),
            lex_byte(s, i0, 123) == Some(a),
            sp_obj(s, a, (None, None, None), m) == sp_obj(s, c.pos(), (span_view(tag), cv, kv), m),
            tag matches Some((ts, te)) ==> ts <= te <= s.len(),
        decreases s.len() - c.pos(),
    {
        reveal(sp_hash_input);
        let ghost i = c.pos();
        proof {
            lemma_raw_string_bounds(s, i);
        }
        let (ka, ke) = match c.parse_raw_string() {
            Ok(ae) => ae,
            Err(e) => {
                return Err(e);
            },
        };
        match c.expect(58u8) {
            Ok(()) => {},
            Err(e) => {
                return Err(e);
            },
        }
        let v = c.position();
        if spells_word(c, ka, ke, "t") && tag.is_none() {
            proof {
                lemma_raw_string_bounds(s, v as int);
            }
            match c.parse_raw_string() {
                Ok(ae) => {
                    tag = Some(ae);
                },
                Err(e) => {
                    return Err(e);
                },
            }
        } else if spells_word(c, ka, ke, "c") && cv.is_none() {
            match c.parse_int() {
                Ok(n) => {
                    cv = Some(n);
                },
                Err(e) => {
                    return Err(e);
                },
            }
        } else if spells_word(c, ka, ke, "k") && kv.is_none() {
            match c.parse_int() {
                Ok(n) => {
                    kv = Some(n);
                },
                Err(e) => {
                    return Err(e);
                },
            }
        } else {
            return Err(json::error_at("unknown or repeated hash-input key", ka));
        }
        let ghost q = c.pos();
        proof {
            lemma_ws_end(s, q);
        }
        let next = c.peek();
        if next == Some(44u8) {
            match c.expect(44u8) {
                Ok(()) => {},
                Err(e) => {
                    return Err(e);
                },
            }
        } else if next == Some(125u8) {
            match c.expect(125u8) {
                Ok(()) => {},
                Err(e) => {
                    return Err(e);
                },
            }
            let (ts, te) = match tag {
                Some(x) => x,
                None => {
                    return Err(String::from_str("hash-input object without a \"t\" tag"));
                },
            };
            if spells_word(c, ts, te, "col") {
                return match (cv, kv) {
                    (Some(v), None) => if v < 0 {
                        let mut e = String::from_str("negative hash-input col ");
                        crate::text::push_int(&mut e, v);
                        Err(e)
                    } else {
                        Ok(HashInput::Col(v as usize))
                    },
                    _ => Err(json::error_at("a col input takes \"c\" alone", ts)),
                };
            } else if spells_word(c, ts, te, "digest") {
                return match (cv, kv) {
                    (None, Some(v)) => if v < 0 {
                        let mut e = String::from_str("negative hash-input digest ");
                        crate::text::push_int(&mut e, v);
                        Err(e)
                    } else {
                        Ok(HashInput::Digest(v as usize))
                    },
                    _ => Err(json::error_at("a digest input takes \"k\" alone", ts)),
                };
            } else if spells_word(c, ts, te, "zero") {
                return match (cv, kv) {
                    (None, None) => Ok(HashInput::Zero),
                    _ => Err(json::error_at("a zero input takes no index", ts)),
                };
            } else {
                return Err(json::error_at("unknown hash-input tag", ts));
            }
        } else {
            return Err(unexpected("expected ',' or '}' in hash-input object", next));
        }
    }
}

/// Decode an array of hash-input objects.
fn parse_input_array(c: &mut JsonCursor) -> (r: Result<Vec<HashInput>, String>)
    requires
        old(c).wf(),
    ensures
        old(c).same_text(final(c)),
        r is Ok ==> old(c).pos() < final(c).pos(),
        match sp_array(old(c).bytes(), old(c).pos(), input_item()) {
            Some((xs, p)) => r matches Ok(v) && v@ == xs && final(c).pos() == p,
            None => r is Err,
        },
{
    let ghost s = c.bytes();
    let ghost i0 = c.pos();
    let ghost f = input_item();
    match c.expect(91u8) {
        Ok(()) => {},
        Err(m) => {
            return Err(m);
        },
    }
    proof {
        lemma_ws_end(s, c.pos());
    }
    let mut v: Vec<HashInput> = Vec::new();
    if c.peek() == Some(93u8) {
        match c.expect(93u8) {
            Ok(()) => {},
            Err(m) => {
                return Err(m);
            },
        }
        return Ok(v);
    }
    let ghost p0 = c.pos();
    loop
        invariant
            c.wf(),
            c.bytes() == s,
            s == old(c).bytes(),
            i0 == old(c).pos(),
            c.strict() == old(c).strict(),
            f == input_item(),
            i0 < p0 <= c.pos(),
            sp_array(s, i0, f) == sp_items(s, p0, f),
            sp_items(s, p0, f) == (match sp_items(s, c.pos(), f) {
                Some((xs, e)) => Some((v@ + xs, e)),
                None => None,
            }),
        decreases s.len() - c.pos(),
    {
        let x = match parse_hash_input(c) {
            Ok(x) => x,
            Err(m) => {
                return Err(m);
            },
        };
        let ghost q = c.pos();
        proof {
            lemma_ws_end(s, q);
        }
        v.push(x);
        let next = c.peek();
        if next == Some(44u8) {
            match c.expect(44u8) {
                Ok(()) => {},
                Err(m) => {
                    return Err(m);
                },
            }
            proof {
                let k = ws_end(s, q);
                match sp_items(s, k + 1, f) {
                    Some((xs, e)) => {
                        assert(v@ + xs =~= v@.drop_last() + (seq![x] + xs));
                    },
                    None => {},
                }
            }
        } else if next == Some(93u8) {
            match c.expect(93u8) {
                Ok(()) => {},
                Err(m) => {
                    return Err(m);
                },
            }
            assert(v@ =~= v@.drop_last() + seq![x]);
            return Ok(v);
        } else {
            return Err(unexpected("expected ',' or ']' in inputs", next));
        }
    }
}

/// Decode one hash-site object; its members may come in any order.
pub(crate) fn parse_hash_site(c: &mut JsonCursor) -> (r: Result<VmHashSite, String>)
    requires
        old(c).wf(),
    ensures
        old(c).same_text(final(c)),
        r is Ok ==> old(c).pos() < final(c).pos(),
        match sp_hash_site(old(c).bytes(), old(c).pos()) {
            Some((x, p)) => r matches Ok(site) && site@ == x && final(c).pos() == p,
            None => r is Err,
        },
{
    reveal(sp_hash_site);
    let ghost s = c.bytes();
    let ghost i0 = c.pos();
    let ghost m = site_member();
    match c.expect(123u8) {
        Ok(()) => {},
        Err(e) => {
            return Err(e);
        },
    }
    let ghost a = c.pos();
    let mut digest_col: Option<i64> = None;
    let mut arity: Option<i64> = None;
    let mut inputs: Option<Vec<HashInput>> = None;
    loop
        invariant
            c.wf(),
            c.bytes() == s,
            s == old(c).bytes(),
            c.strict() == old(c).strict(),
            i0 == old(c).pos(),
            i0 < c.pos(),
            m == site_member(),
            lex_byte(s, i0, 123) == Some(a),
            sp_obj(s, a, (None, None, None), m) == sp_obj(s, c.pos(), (digest_col, arity, opt_seq(inputs)), m),
        decreases s.len() - c.pos(),
    {
        reveal(sp_hash_site);
        let ghost i = c.pos();
        proof {
            lemma_raw_string_bounds(s, i);
        }
        let (ka, ke) = match c.parse_raw_string() {
            Ok(ae) => ae,
            Err(e) => {
                return Err(e);
            },
        };
        match c.expect(58u8) {
            Ok(()) => {},
            Err(e) => {
                return Err(e);
            },
        }
        let v = c.position();
        if spells_word(c, ka, ke, "digest_col") && digest_col.is_none() {
            let n = match c.parse_int() {
                Ok(n) => n,
                Err(e) => {
                    return Err(e);
                },
            };
            if n < 0 {
                let mut e = String::from_str("negative digest_col ");
                crate::text::push_int(&mut e, n);
                return Err(e);
            }
            digest_col = Some(n);
        } else if spells_word(c, ka, ke, "arity") && arity.is_none() {
            let n = match c.parse_int() {
                Ok(n) => n,
                Err(e) => {
                    return Err(e);
                },
            };
            if !(n == 2 || n == 4) {
                let mut e = String::from_str("hash site arity ");
                crate::text::push_int(&mut e, n);
                push_text(&mut e, " must be 2 or 4");
                return Err(e);
            }
            arity = Some(n);
        } else if spells_word(c, ka, ke, "inputs") && inputs.is_none() {
            match parse_input_array(c) {
                Ok(ins) => {
                    inputs = Some(ins);
                },
                Err(e) => {
                    return Err(e);
                },
            }
        } else {
            return Err(json::error_at("unknown or repeated hash-site key", ka));
        }
        let ghost q = c.pos();
        proof {
            lemma_ws_end(s, q);
        }
        let next = c.peek();
        if next == Some(44u8) {
            match c.expect(44u8) {
                Ok(()) => {},
                Err(e) => {
                    return Err(e);
                },
            }
        } else if next == Some(125u8) {
            match c.expect(125u8) {
                Ok(()) => {},
                Err(e) => {
                    return Err(e);
                },
            }
            return match (digest_col, arity, inputs) {
                (Some(dc), Some(ar), Some(inputs)) => Ok(
                    VmHashSite { digest_col: dc as usize, arity: ar as usize, inputs },
                ),
                _ => Err(String::from_str("hash site needs \"digest_col\", \"arity\" and \"inputs\"")),
            };
        } else {
            return Err(unexpected("expected ',' or '}' in hash-site object", next));
        }
    }
}

/// Decode one EffectVM constraint object; its members may come in any
/// order.
pub(crate) fn parse_vm_constraint(c: &mut JsonCursor) -> (r: Result<VmConstraint, String>)
    requires
        old(c).wf(),
    ensures
        old(c).same_text(final(c)),
        r is Ok ==> old(c).pos() < final(c).pos(),
        match sp_vm_constraint(old(c).bytes(), old(c).pos(), old(c).strict()) {
            Some((x, p)) => r == Ok::<VmConstraint, String>(x) && final(c).pos() == p,
            None => r is Err,
        },
{
    reveal(sp_vm_constraint);
    match c.expect(123u8) {
        Ok(()) => {},
        Err(m) => {
            return Err(m);
        },
    }
    parse_vm_constraint_body(c)
}

/// The exec record of a constraint object's members, as
/// [`VmConstraintFields`].
pub open spec fn vm_fields(
    tag: Option<(usize, usize)>,
    body: Option<LeanExpr>,
    row: Option<VmRow>,
    hi: Option<i64>,
    lo: Option<i64>,
    col: Option<i64>,
    pi: Option<i64>,
) -> VmConstraintFields {
    (span_view(tag), body, row, hi, lo, col, pi)
}

/// The body of one constraint object after its opening brace: its members,
/// in any order, up to the closing brace, and the constraint they name.
pub(crate) fn parse_vm_constraint_body(c: &mut JsonCursor) -> (r: Result<VmConstraint, String>)
    requires
        old(c).wf(),
    ensures
        old(c).same_text(final(c)),
        r is Ok ==> old(c).pos() < final(c).pos(),
        match sp_vm_body(old(c).bytes(), old(c).pos(), old(c).strict()) {
            Some((x, p)) => r == Ok::<VmConstraint, String>(x) && final(c).pos() == p,
            None => r is Err,
        },
{
    let ghost s = c.bytes();
    let ghost a = c.pos();
    let ghost strict = c.strict();
    let ghost m = vm_member(strict);
    let mut tag: Option<(usize, usize)> = None;
    let mut body: Option<LeanExpr> = None;
    let mut row: Option<VmRow> = None;
    let mut hi: Option<i64> = None;
    let mut lo: Option<i64> = None;
    let mut col: Option<i64> = None;
    let mut pi: Option<i64> = None;
    loop
        invariant
            c.wf(),
            c.bytes() == s,
            s == old(c).bytes(),
            c.strict() == strict,
            strict == old(c).strict(),
            a == old(c).pos(),
            a <= c.pos(),
            m == vm_member(strict),
            sp_obj(s, a, no_vm_fields(), m) == sp_obj(s, c.pos(), vm_fields(tag, body, row, hi, lo, col, pi), m),
            tag matches Some((ts, te)) ==> ts <= te <= s.len(),
        decreases s.len() - c.pos(),
    {
        let ghost i = c.pos();
        proof {
            lemma_raw_string_bounds(s, i);
        }
        let (ka, ke) = match c.parse_raw_string() {
            Ok(ae) => ae,
            Err(e) => {
                return Err(e);
            },
        };
        match c.expect(58u8) {
            Ok(()) => {},
            Err(e) => {
                return Err(e);
            },
        }
        let v = c.position();
        if spells_word(c, ka, ke, "t") && tag.is_none() {
            proof {
                lemma_raw_string_bounds(s, v as int);
            }
            match c.parse_raw_string() {
                Ok(ae) => {
                    tag = Some(ae);
                },
                Err(e) => {
                    return Err(e);
                },
            }
        } else if spells_word(c, ka, ke, "body") && body.is_none() {
            match parse_expr(c) {
                Ok(e) => {
                    body = Some(e);
                },
                Err(e) => {
                    return Err(e);
                },
            }
        } else if spells_word(c, ka, ke, "row") && row.is_none() {
            match parse_row(c) {
                Ok(x) => {
                    row = Some(x);
                },
                Err(e) => {
                    return Err(e);
                },
            }
        } else if spells_word(c, ka, ke, "hi") && hi.is_none() {
            match c.parse_int() {
                Ok(n) => {
                    hi = Some(n);
                },
                Err(e) => {
                    return Err(e);
                },
            }
        } else if spells_word(c, ka, ke, "lo") && lo.is_none() {
            match c.parse_int() {
                Ok(n) => {
                    lo = Some(n);
                },
                Err(e) => {
                    return Err(e);
                },
            }
        } else if spells_word(c, ka, ke, "col") && col.is_none() {
            match c.parse_int() {
                Ok(n) => {
                    col = Some(n);
                },
                Err(e) => {
                    return Err(e);
                },
            }
        } else if spells_word(c, ka, ke, "pi_index") && pi.is_none() {
            match c.parse_int() {
                Ok(n) => {
                    pi = Some(n);
                },
                Err(e) => {
                    return Err(e);
                },
            }
        } else {
            return Err(json::error_at("unknown or repeated vm-constraint key", ka));
        }
        let ghost q = c.pos();
        proof {
            lemma_ws_end(s, q);
        }
        let next = c.peek();
        if next == Some(44u8) {
            match c.expect(44u8) {
                Ok(()) => {},
                Err(e) => {
                    return Err(e);
                },
            }
        } else if next == Some(125u8) {
            match c.expect(125u8) {
                Ok(()) => {},
                Err(e) => {
                    return Err(e);
                },
            }
            return finish_vm_constraint(c, tag, body, row, hi, lo, col, pi);
        } else {
            return Err(unexpected("expected ',' or '}' in vm-constraint object", next));
        }
    }
}

/// The constraint a constraint object's members name (see
/// [`vm_constraint_of`]).
fn finish_vm_constraint(
    c: &JsonCursor,
    tag: Option<(usize, usize)>,
    body: Option<LeanExpr>,
    row: Option<VmRow>,
    hi: Option<i64>,
    lo: Option<i64>,
    col: Option<i64>,
    pi: Option<i64>,
) -> (r: Result<VmConstraint, String>)
    requires
        tag matches Some((ts, te)) ==> ts <= te <= c.bytes().len(),
    ensures
        match vm_constraint_of(c.bytes(), vm_fields(tag, body, row, hi, lo, col, pi)) {
            Some(x) => r == Ok::<VmConstraint, String>(x),
            None => r is Err,
        },
{
    let (ts, te) = match tag {
        Some(x) => x,
        None => {
            return Err(String::from_str("vm-constraint object without a \"t\" tag"));
        },
    };
    if spells_word(c, ts, te, "gate") {
        match (body, row, hi, lo, col, pi) {
            (Some(body), None, None, None, None, None) => Ok(VmConstraint::Gate(body)),
            _ => Err(json::error_at("a gate takes \"body\" alone", ts)),
        }
    } else if spells_word(c, ts, te, "transition") {
        match (body, row, hi, lo, col, pi) {
            (None, None, Some(hi), Some(lo), None, None) => if hi < 0 || lo < 0 {
                Err(String::from_str("negative transition index"))
            } else {
                Ok(VmConstraint::Transition { hi: hi as usize, lo: lo as usize })
            },
            _ => Err(json::error_at("a transition takes \"hi\" and \"lo\" alone", ts)),
        }
    } else if spells_word(c, ts, te, "boundary") {
        match (body, row, hi, lo, col, pi) {
            (Some(body), Some(row), None, None, None, None) => Ok(VmConstraint::Boundary { row, body }),
            _ => Err(json::error_at("a boundary takes \"row\" and \"body\" alone", ts)),
        }
    } else if spells_word(c, ts, te, "pi_binding") {
        match (body, row, hi, lo, col, pi) {
            (None, Some(row), None, None, Some(col), Some(pi)) => if col < 0 || pi < 0 {
                Err(String::from_str("negative pi_binding index"))
            } else {
                Ok(VmConstraint::PiBinding { row, col: col as usize, pi_index: pi as usize })
            },
            _ => Err(json::error_at("a pi_binding takes \"row\", \"col\" and \"pi_index\" alone", ts)),
        }
    } else {
        Err(json::error_at("unknown vm-constraint tag", ts))
    }
}

/// Decode an array of EffectVM constraint objects.
fn parse_vm_constraint_array(c: &mut JsonCursor) -> (r: Result<Vec<VmConstraint>, String>)
    requires
        old(c).wf(),
    ensures
        old(c).same_text(final(c)),
        r is Ok ==> old(c).pos() < final(c).pos(),
        match sp_array(old(c).bytes(), old(c).pos(), vm_constraint_item(old(c).strict())) {
            Some((xs, p)) => r matches Ok(v) && v@ == xs && final(c).pos() == p,
            None => r is Err,
        },
{
    let ghost s = c.bytes();
    let ghost i0 = c.pos();
    let ghost f = vm_constraint_item(c.strict());
    match c.expect(91u8) {
        Ok(()) => {},
        Err(m) => {
            return Err(m);
        },
    }
    proof {
        lemma_ws_end(s, c.pos());
    }
    let mut v: Vec<VmConstraint> = Vec::new();
    if c.peek() == Some(93u8) {
        match c.expect(93u8) {
            Ok(()) => {},
            Err(m) => {
                return Err(m);
            },
        }
        return Ok(v);
    }
    let ghost p0 = c.pos();
    loop
        invariant
            c.wf(),
            c.bytes() == s,
            s == old(c).bytes(),
            i0 == old(c).pos(),
            c.strict() == old(c).strict(),
            f == vm_constraint_item(c.strict()),
            i0 < p0 <= c.pos(),
            sp_array(s, i0, f) == sp_items(s, p0, f),
            sp_items(s, p0, f) == (match sp_items(s, c.pos(), f) {
                Some((xs, e)) => Some((v@ + xs, e)),
                None => None,
            }),
        decreases s.len() - c.pos(),
    {
        let x = match parse_vm_constraint(c) {
            Ok(x) => x,
            Err(m) => {
                return Err(m);
            },
        };
        let ghost q = c.pos();
        proof {
            lemma_ws_end(s, q);
        }
        v.push(x);
        let next = c.peek();
        if next == Some(44u8) {
            match c.expect(44u8) {
                Ok(()) => {},
                Err(m) => {
                    return Err(m);
                },
            }
            proof {
                let k = ws_end(s, q);
                match sp_items(s, k + 1, f) {
                    Some((xs, e)) => {
                        assert(v@ + xs =~= v@.drop_last() + (seq![x] + xs));
                    },
                    None => {},
                }
            }
        } else if next == Some(93u8) {
            match c.expect(93u8) {
                Ok(()) => {},
                Err(m) => {
                    return Err(m);
                },
            }
            assert(v@ =~= v@.drop_last() + seq![x]);
            return Ok(v);
        } else {
            return Err(unexpected("expected ',' or ']' in array", next));
        }
    }
}

/// Decode an array of hash-site objects.
fn parse_site_array(c: &mut JsonCursor) -> (r: Result<Vec<VmHashSite>, String>)
    requires
        old(c).wf(),
    ensures
        old(c).same_text(final(c)),
        r is Ok ==> old(c).pos() < final(c).pos(),
        match sp_array(old(c).bytes(), old(c).pos(), site_item()) {
            Some((xs, p)) => r matches Ok(v) && site_views(v@) == xs && final(c).pos() == p,
            None => r is Err,
        },
{
    let ghost s = c.bytes();
    let ghost i0 = c.pos();
    let ghost f = site_item();
    match c.expect(91u8) {
        Ok(()) => {},
        Err(m) => {
            return Err(m);
        },
    }
    proof {
        lemma_ws_end(s, c.pos());
    }
    let mut v: Vec<VmHashSite> = Vec::new();
    if c.peek() == Some(93u8) {
        match c.expect(93u8) {
            Ok(()) => {},
            Err(m) => {
                return Err(m);
            },
        }
        assert(site_views(v@) =~= seq![]);
        return Ok(v);
    }
    let ghost p0 = c.pos();
    loop
        invariant
            c.wf(),
            c.bytes() == s,
            s == old(c).bytes(),
            i0 == old(c).pos(),
            c.strict() == old(c).strict(),
            f == site_item(),
            i0 < p0 <= c.pos(),
            sp_array(s, i0, f) == sp_items(s, p0, f),
            sp_items(s, p0, f) == (match sp_items(s, c.pos(), f) {
                Some((xs, e)) => Some((site_views(v@) + xs, e)),
                None => None,
            }),
        decreases s.len() - c.pos(),
    {
        let x = match parse_hash_site(c) {
            Ok(x) => x,
            Err(m) => {
                return Err(m);
            },
        };
        let ghost q = c.pos();
        let ghost before = site_views(v@);
        proof {
            lemma_ws_end(s, q);
        }
        v.push(x);
        assert(site_views(v@) =~= before.push(x@));
        let next = c.peek();
        if next == Some(44u8) {
            match c.expect(44u8) {
                Ok(()) => {},
                Err(m) => {
                    return Err(m);
                },
            }
            proof {
                let k = ws_end(s, q);
                match sp_items(s, k + 1, f) {
                    Some((xs, e)) => {
                        assert(site_views(v@) + xs =~= before + (seq![x@] + xs));
                    },
                    None => {},
                }
            }
        } else if next == Some(93u8) {
            match c.expect(93u8) {
                Ok(()) => {},
                Err(m) => {
                    return Err(m);
                },
            }
            assert(site_views(v@) =~= before + seq![x@]);
            return Ok(v);
        } else {
            return Err(unexpected("expected ',' or ']' in array", next));
        }
    }
}

/// **`parse_vm_descriptor`** — decode an emitted EffectVM descriptor
/// `{"name":S,"trace_width":N,"public_input_count":N,"constraints":[…],
/// "hash_sites":[…],"ranges":[…]}` into an [`EffectVmDescriptor`].
pub fn parse_vm_descriptor(json: &str) -> (r: Result<EffectVmDescriptor, String>)
    ensures
        match sp_vm_descriptor(json.spec_bytes(), true) {
            Some(f) => r matches Ok(d) && Some(d.name@) == f.0 && Some(d.trace_width) == f.1
                && Some(d.public_input_count) == f.2 && Some(d.constraints@) == f.3
                && site_views(d.hash_sites@) == or_empty(f.4) && d.ranges@ == or_empty(f.5),
            None => r is Err,
        },
        r matches Ok(d) ==> (forall|k: int| 0 <= k < d.constraints@.len() ==> super::refusals::vm_constraint_in_field(
            #[trigger] d.constraints@[k],
        )) && (forall|k: int| 0 <= k < d.hash_sites@.len() ==> (#[trigger] d.hash_sites@[k]).arity == 2
            || d.hash_sites@[k].arity == 4) && (forall|k: int| 0 <= k < d.ranges@.len() ==> super::refusals::range_not_vacuous(
            #[trigger] d.ranges@[k],
        )),
{
    let mut c = JsonCursor::new(json);
    let ghost s = c.bytes();
    match c.expect(123u8) {
        Ok(()) => {},
        Err(m) => {
            return Err(m);
        },
    }
    let ghost a = c.pos();
    let mut name: Option<String> = None;
    let mut trace_width: Option<usize> = None;
    let mut public_input_count: Option<usize> = None;
    let mut constraints: Option<Vec<VmConstraint>> = None;
    let mut hash_sites: Option<Vec<VmHashSite>> = None;
    let mut ranges: Option<Vec<RangeSpec>> = None;
    loop
        invariant
            c.wf(),
            c.bytes() == s,
            s == json.spec_bytes(),
            c.strict(),
            lex_byte(s, 0, 123) == Some(a),
            sp_vm_members(s, a, (None, None, None, None, None, None), true) == sp_vm_members(
                s,
                c.pos(),
                (
                    opt_text(name),
                    trace_width,
                    public_input_count,
                    opt_seq(constraints),
                    opt_site_views(hash_sites),
                    opt_seq(ranges),
                ),
                true,
            ),
        decreases s.len() - c.pos(),
    {
        let ghost i = c.pos();
        proof {
            lemma_raw_string_bounds(s, i);
        }
        let (ka, ke) = match c.parse_raw_string() {
            Ok(ae) => ae,
            Err(m) => {
                return Err(m);
            },
        };
        match c.expect(58u8) {
            Ok(()) => {},
            Err(m) => {
                return Err(m);
            },
        }
        if spells_word(&c, ka, ke, "name") {
            match c.parse_string() {
                Ok(t) => {
                    name = Some(t);
                },
                Err(m) => {
                    return Err(m);
                },
            }
        } else if spells_word(&c, ka, ke, "trace_width") {
            let n = match c.parse_int() {
                Ok(n) => n,
                Err(m) => {
                    return Err(m);
                },
            };
            if n < 0 {
                let mut m = String::from_str("negative trace_width ");
                crate::text::push_int(&mut m, n);
                return Err(m);
            }
            trace_width = Some(n as usize);
        } else if spells_word(&c, ka, ke, "public_input_count") {
            let n = match c.parse_int() {
                Ok(n) => n,
                Err(m) => {
                    return Err(m);
                },
            };
            if n < 0 {
                let mut m = String::from_str("negative public_input_count ");
                crate::text::push_int(&mut m, n);
                return Err(m);
            }
            public_input_count = Some(n as usize);
        } else if spells_word(&c, ka, ke, "constraints") {
            match parse_vm_constraint_array(&mut c) {
                Ok(v) => {
                    constraints = Some(v);
                },
                Err(m) => {
                    return Err(m);
                },
            }
        } else if spells_word(&c, ka, ke, "hash_sites") {
            match parse_site_array(&mut c) {
                Ok(v) => {
                    hash_sites = Some(v);
                },
                Err(m) => {
                    return Err(m);
                },
            }
        } else if spells_word(&c, ka, ke, "ranges") {
            match parse_range_array(&mut c) {
                Ok(v) => {
                    ranges = Some(v);
                },
                Err(m) => {
                    return Err(m);
                },
            }
        } else {
            let m = match c.range_text(ka, ke) {
                Some(key) => {
                    let mut m = String::from_str("unknown top-level key \"");
                    push_text(&mut m, key.as_str());
                    push_text(&mut m, "\"");
                    m
                },
                None => String::from_str("invalid utf8 in string"),
            };
            return Err(m);
        }
        let ghost q = c.pos();
        proof {
            lemma_ws_end(s, q);
        }
        let next = c.peek();
        if next == Some(44u8) {
            match c.expect(44u8) {
                Ok(()) => {},
                Err(m) => {
                    return Err(m);
                },
            }
        } else if next == Some(125u8) {
            match c.expect(125u8) {
                Ok(()) => {},
                Err(m) => {
                    return Err(m);
                },
            }
            let res = finish_vm_descriptor(name, trace_width, public_input_count, constraints, hash_sites, ranges);
            proof {
                super::refusals::lemma_decoded_vm_descriptor_in_field(s);
                if res is Ok {
                    let f = sp_vm_descriptor(s, true)->Some_0;
                    let d = res->Ok_0;
                    assert(d.constraints@ == or_empty(f.3));
                    assert forall|k: int| 0 <= k < d.hash_sites@.len() implies (#[trigger] d.hash_sites@[k]).arity == 2
                        || d.hash_sites@[k].arity == 4 by {
                        assert(site_views(d.hash_sites@)[k] == d.hash_sites@[k]@);
                    }
                }
            }
            return res;
        } else {
            return Err(unexpected("expected ',' or '}' in descriptor", next));
        }
    }
}

/// The views of an optional list of hash sites.
pub open spec fn opt_site_views(o: Option<Vec<VmHashSite>>) -> Option<Seq<(usize, usize, Seq<HashInput>)>> {
    match o {
        Some(v) => Some(site_views(v@)),
        None => None,
    }
}

/// The descriptor from its members: `name`, `trace_width`,
/// `public_input_count` and `constraints` are required; the hash sites and
/// ranges default to none.
fn finish_vm_descriptor(
    name: Option<String>,
    trace_width: Option<usize>,
    public_input_count: Option<usize>,
    constraints: Option<Vec<VmConstraint>>,
    hash_sites: Option<Vec<VmHashSite>>,
    ranges: Option<Vec<RangeSpec>>,
) -> (r: Result<EffectVmDescriptor, String>)
    ensures
        ({
            let f: VmFields = (
                opt_text(name),
                trace_width,
                public_input_count,
                opt_seq(constraints),
                opt_site_views(hash_sites),
                opt_seq(ranges),
            );
            if f.0 is Some && f.1 is Some && f.2 is Some && f.3 is Some {
                r matches Ok(d) && Some(d.name@) == f.0 && Some(d.trace_width) == f.1
                    && Some(d.public_input_count) == f.2 && Some(d.constraints@) == f.3
                    && site_views(d.hash_sites@) == or_empty(f.4) && d.ranges@ == or_empty(f.5)
            } else {
                r is Err
            }
        }),
{
    let name = match name {
        Some(n) => n,
        None => {
            return Err(String::from_str("vm descriptor missing \"name\""));
        },
    };
    let trace_width = match trace_width {
        Some(w) => w,
        None => {
            return Err(String::from_str("vm descriptor missing \"trace_width\""));
        },
    };
    let public_input_count = match public_input_count {
        Some(n) => n,
        None => {
            return Err(String::from_str("vm descriptor missing \"public_input_count\""));
        },
    };
    let constraints = match constraints {
        Some(cs) => cs,
        None => {
            return Err(String::from_str("vm descriptor missing \"constraints\""));
        },
    };
    let hash_sites = match hash_sites {
        Some(hs) => hs,
        None => {
            let v: Vec<VmHashSite> = Vec::new();
            assert(site_views(v@) =~= seq![]);
            v
        },
    };
    let ranges = match ranges {
        Some(rs) => rs,
        None => Vec::new(),
    };
    Ok(EffectVmDescriptor { name, trace_width, public_input_count, constraints, hash_sites, ranges })
}

/// An EffectVM descriptor wrapped as the multi-row AIR that interprets it.
#[derive(Clone)]
pub struct EffectVmDescriptorAir {
    /// The descriptor whose constraints the AIR enforces.
    pub desc: EffectVmDescriptor,
}

impl EffectVmDescriptorAir {
    /// Wrap a descriptor.
    pub fn new(desc: EffectVmDescriptor) -> (r: Self)
        ensures
            r.desc == desc,
    {
        EffectVmDescriptorAir { desc }
    }
}

/// The next-row column a constraint reads: `state_before[hi]` for a transition.
pub open spec fn next_row_col(c: VmConstraint) -> Option<int> {
    match c {
        VmConstraint::Transition { hi, lo: _ } => Some(EFFECTVM_STATE_BEFORE_BASE + hi),
        _ => None,
    }
}

/// `v` is strictly increasing.
pub open spec fn strictly_increasing(v: Seq<usize>) -> bool {
    forall|j: int, k: int| 0 <= j < k < v.len() ==> v[j] < v[k]
}

/// Insert `x` into a strictly increasing vector, unless it is there already.
fn insert_sorted(v: &mut Vec<usize>, x: usize)
    requires
        strictly_increasing(old(v)@),
    ensures
        strictly_increasing(final(v)@),
        forall|y: usize| final(v)@.contains(y) <==> (old(v)@.contains(y) || y == x),
{
    let mut j: usize = 0;
    while j < v.len() && v[j] < x
        invariant
            j <= v@.len(),
            v@ == old(v)@,
            forall|t: int| 0 <= t < j ==> v@[t] < x,
        decreases v@.len() - j,
    {
        j = j + 1;
    }
    if j < v.len() && v[j] == x {
        assert(v@.contains(x));
        return;
    }
    let ghost before = v@;
    assert(before == old(v)@);
    v.insert(j, x);
    assert forall|y: usize| v@.contains(y) <==> (before.contains(y) || y == x) by {
        if v@.contains(y) {
            let t = choose|t: int| 0 <= t < v@.len() && v@[t] == y;
            if t < j {
                assert(before[t] == y);
            } else if t > j {
                assert(before[t - 1] == y);
            }
        }
        if before.contains(y) {
            let t = choose|t: int| 0 <= t < before.len() && before[t] == y;
            if t < j {
                assert(v@[t] == y);
            } else {
                assert(v@[t + 1] == y);
            }
        }
        if y == x {
            assert(v@[j as int] == x);
        }
    }
    assert(forall|y: usize| v@.contains(y) <==> (old(v)@.contains(y) || y == x));
}

impl EffectVmDescriptorAir {
    /// The full trace width.
    pub fn width(&self) -> (r: usize)
        requires
            self.desc.trace_width + self.desc.hash_sites@.len() * SITE_AUX_COLS + sum_bits(self.desc.ranges@) <= usize::MAX,
        ensures
            r == self.desc.trace_width + self.desc.hash_sites@.len() * SITE_AUX_COLS + sum_bits(self.desc.ranges@),
    {
        self.desc.air_width()
    }

    /// The number of public values: the descriptor's public-input count.
    pub fn num_public_values(&self) -> (r: usize)
        ensures
            r == self.desc.public_input_count,
    {
        self.desc.public_input_count
    }

    /// **The next-row columns** the AIR reads: `state_before[hi]` of every
    /// transition, ascending, each once.
    pub fn main_next_row_columns(&self) -> (r: Vec<usize>)
        requires
            forall|i: int| 0 <= i < self.desc.constraints@.len() ==> (#[trigger] next_row_col(self.desc.constraints@[i]) matches Some(x) ==> x <= usize::MAX),
        ensures
            strictly_increasing(r@),
            forall|y: usize| r@.contains(y) <==> exists|i: int| 0 <= i < self.desc.constraints@.len() && #[trigger] next_row_col(self.desc.constraints@[i]) == Some(y as int),
    {
        let cs = &self.desc.constraints;
        let mut cols: Vec<usize> = Vec::new();
        let mut ci: usize = 0;
        while ci < cs.len()
            invariant
                ci <= cs@.len(),
                cs@ == self.desc.constraints@,
                forall|i: int| 0 <= i < cs@.len() ==> (#[trigger] next_row_col(cs@[i]) matches Some(x) ==> x <= usize::MAX),
                strictly_increasing(cols@),
                forall|y: usize| cols@.contains(y) <==> exists|i: int| 0 <= i < ci && #[trigger] next_row_col(cs@[i]) == Some(y as int),
            decreases cs@.len() - ci,
        {
            let ghost before = cols@;
            match &cs[ci] {
                VmConstraint::Transition { hi, lo: _ } => {
                    assert(next_row_col(cs@[ci as int]) == Some(EFFECTVM_STATE_BEFORE_BASE + *hi));
                    let x = EFFECTVM_STATE_BEFORE_BASE + *hi;
                    insert_sorted(&mut cols, x);
                    assert forall|y: usize| cols@.contains(y) <==> exists|i: int| 0 <= i < ci + 1 && #[trigger] next_row_col(cs@[i]) == Some(y as int) by {
                        if y == x {
                            assert(next_row_col(cs@[ci as int]) == Some(y as int));
                        }
                        if exists|i: int| 0 <= i < ci + 1 && #[trigger] next_row_col(cs@[i]) == Some(y as int) {
                            let i = choose|i: int| 0 <= i < ci + 1 && #[trigger] next_row_col(cs@[i]) == Some(y as int);
                            if i < ci {
                                assert(before.contains(y));
                            }
                        }
                    }
                },
                _ => {
                    assert(next_row_col(cs@[ci as int]) is None);
                    assert forall|y: usize| cols@.contains(y) <==> exists|i: int| 0 <= i < ci + 1 && #[trigger] next_row_col(cs@[i]) == Some(y as int) by {
                        if exists|i: int| 0 <= i < ci + 1 && #[trigger] next_row_col(cs@[i]) == Some(y as int) {
                            let i = choose|i: int| 0 <= i < ci + 1 && #[trigger] next_row_col(cs@[i]) == Some(y as int);
                            assert(i < ci);
                        }
                    }
                },
            }
            ci = ci + 1;
        }
        cols
    }

    /// The AIR's constraint degree bound: the Poseidon2 S-box is degree 7.
    pub fn max_constraint_degree(&self) -> (r: Option<usize>)
        ensures
            r == Some(7usize),
    {
        Some(7)
    }
}

} // verus!
