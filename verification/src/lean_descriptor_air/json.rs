//! A byte cursor over the fixed-schema JSON that the Lean emitter prints, and
//! the lexical grammar it follows, stated as spec functions over the input
//! bytes and a position.
//!
//! Every lexer spec returns `None` where the cursor method errs and otherwise
//! the value read and the position just after it. Whitespace is what
//! `char::is_whitespace` says of a byte read as a Latin-1 character.
use vstd::prelude::*;
use vstd::utf8::{valid_utf8, decode_utf8, encode_utf8};
use vstd::string::StringSliceAdditionalSpecFns;
use crate::field::BABYBEAR_P;
use crate::text::{decimal_spec, push_num};

verus! {

// ---------------------------------------------------------------------------
// The lexical grammar
// ---------------------------------------------------------------------------

/// A whitespace byte: `\t \n \v \f \r`, space, NEL (0x85) and NBSP (0xA0).
pub open spec fn is_ws(b: u8) -> bool {
    b == 9 || b == 10 || b == 11 || b == 12 || b == 13 || b == 32 || b == 0x85 || b == 0xA0
}

/// The first position at or after `i` that is not whitespace.
pub open spec fn ws_end(s: Seq<u8>, i: int) -> int
    decreases s.len() - i,
{
    if 0 <= i < s.len() && is_ws(s[i]) {
        ws_end(s, i + 1)
    } else {
        i
    }
}

/// After whitespace, the byte `c`; the position after it.
pub open spec fn lex_byte(s: Seq<u8>, i: int, c: u8) -> Option<int> {
    let k = ws_end(s, i);
    if 0 <= k < s.len() && s[k] == c {
        Some(k + 1)
    } else {
        None
    }
}

/// The next byte after whitespace, if any.
pub open spec fn peek_byte(s: Seq<u8>, i: int) -> Option<u8> {
    let k = ws_end(s, i);
    if 0 <= k < s.len() {
        Some(s[k])
    } else {
        None
    }
}

/// The first position at or after `j` holding a quote or a backslash (or the end).
pub open spec fn quote_scan(s: Seq<u8>, j: int) -> int
    decreases s.len() - j,
{
    if 0 <= j < s.len() && s[j] != 34 && s[j] != 92 {
        quote_scan(s, j + 1)
    } else {
        j
    }
}

/// After whitespace, a quoted string without escapes: the bounds `(a, e)` of
/// its content; the closing quote stands at `e`.
pub open spec fn lex_raw_string(s: Seq<u8>, i: int) -> Option<(int, int)> {
    let k = ws_end(s, i);
    if 0 <= k < s.len() && s[k] == 34 {
        let e = quote_scan(s, k + 1);
        if e < s.len() && s[e] == 34 {
            Some((k + 1, e))
        } else {
            None
        }
    } else {
        None
    }
}

/// A quoted string whose content is well-formed UTF-8: the text; the
/// position after the closing quote.
pub open spec fn lex_string(s: Seq<u8>, i: int) -> Option<(Seq<char>, int)> {
    match lex_raw_string(s, i) {
        Some((a, e)) => if valid_utf8(s.subrange(a, e)) {
            Some((decode_utf8(s.subrange(a, e)), e + 1))
        } else {
            None
        },
        None => None,
    }
}

/// An ASCII decimal digit.
pub open spec fn is_digit(b: u8) -> bool {
    48 <= b <= 57
}

/// The first position at or after `j` that is not a digit.
pub open spec fn digits_end(s: Seq<u8>, j: int) -> int
    decreases s.len() - j,
{
    if 0 <= j < s.len() && is_digit(s[j]) {
        digits_end(s, j + 1)
    } else {
        j
    }
}

/// The value of a run of decimal digits, most significant first.
pub open spec fn digits_value(d: Seq<u8>) -> nat
    decreases d.len(),
{
    if d.len() == 0 {
        0
    } else {
        digits_value(d.drop_last()) * 10 + (d.last() - 48) as nat
    }
}

/// An integer literal after whitespace starts with a minus sign.
pub open spec fn int_neg(s: Seq<u8>, i: int) -> bool {
    let k = ws_end(s, i);
    0 <= k < s.len() && s[k] == 45
}

/// Where the digits of an integer literal start.
pub open spec fn int_digits_start(s: Seq<u8>, i: int) -> int {
    if int_neg(s, i) {
        ws_end(s, i) + 1
    } else {
        ws_end(s, i)
    }
}

/// Where the digits of an integer literal end.
pub open spec fn int_digits_end(s: Seq<u8>, i: int) -> int {
    digits_end(s, int_digits_start(s, i))
}

/// The signed value an integer literal spells.
pub open spec fn int_literal(s: Seq<u8>, i: int) -> int {
    let m = digits_value(s.subrange(int_digits_start(s, i), int_digits_end(s, i))) as int;
    if int_neg(s, i) {
        -m
    } else {
        m
    }
}

/// `v` is an `i64`.
pub open spec fn fits_i64(v: int) -> bool {
    i64::MIN <= v <= i64::MAX
}

/// The magnitude of `v`.
pub open spec fn abs_int(v: int) -> int {
    if v < 0 {
        -v
    } else {
        v
    }
}

/// An optional minus sign and at least one digit, spelling an `i64`.
pub open spec fn lex_int(s: Seq<u8>, i: int) -> Option<(i64, int)> {
    if int_digits_end(s, i) == int_digits_start(s, i) {
        None
    } else if fits_i64(int_literal(s, i)) {
        Some((int_literal(s, i) as i64, int_digits_end(s, i)))
    } else {
        None
    }
}

/// A gate coefficient: an integer literal that must stay below `p` in
/// magnitude when `strict`; otherwise an `i64` is kept as written and a
/// wider literal is reduced to its residue in `[0, p)`.
pub open spec fn lex_int_field(s: Seq<u8>, i: int, strict: bool) -> Option<(i64, int)> {
    let v = int_literal(s, i);
    let e = int_digits_end(s, i);
    if e == int_digits_start(s, i) {
        None
    } else if fits_i64(v) {
        if strict && abs_int(v) >= BABYBEAR_P {
            None
        } else {
            Some((v as i64, e))
        }
    } else if strict {
        None
    } else {
        Some(((v % (BABYBEAR_P as int)) as i64, e))
    }
}

/// The bytes at `k` begin with the word `w`.
pub open spec fn starts_with_at(s: Seq<u8>, k: int, w: Seq<u8>) -> bool {
    0 <= k && k + w.len() <= s.len() && s.subrange(k, k + w.len()) == w
}

/// After whitespace, an optional `null`: whether it stood there, and the
/// position after it (or after the whitespace).
pub open spec fn lex_null(s: Seq<u8>, i: int) -> (bool, int) {
    let k = ws_end(s, i);
    let w = encode_utf8("null"@);
    if starts_with_at(s, k, w) {
        (true, k + w.len())
    } else {
        (false, k)
    }
}

/// After whitespace, `true` or `false`.
pub open spec fn lex_bool(s: Seq<u8>, i: int) -> Option<(bool, int)> {
    let k = ws_end(s, i);
    let t = encode_utf8("true"@);
    let f = encode_utf8("false"@);
    if starts_with_at(s, k, t) {
        Some((true, k + t.len()))
    } else if starts_with_at(s, k, f) {
        Some((false, k + f.len()))
    } else {
        None
    }
}

// ---------------------------------------------------------------------------
// Lemmas of the lexical grammar
// ---------------------------------------------------------------------------

/// Skipping whitespace moves forward, stays in the text, stops on a
/// non-whitespace byte, and skipping again stays put.
pub proof fn lemma_ws_end(s: Seq<u8>, i: int)
    requires
        0 <= i <= s.len(),
    ensures
        i <= ws_end(s, i) <= s.len(),
        ws_end(s, i) < s.len() ==> !is_ws(s[ws_end(s, i)]),
        ws_end(s, ws_end(s, i)) == ws_end(s, i),
    decreases s.len() - i,
{
    if i < s.len() && is_ws(s[i]) {
        lemma_ws_end(s, i + 1);
    }
}

/// A raw string's bounds lie inside the text, after `i`.
pub proof fn lemma_raw_string_bounds(s: Seq<u8>, i: int)
    requires
        0 <= i <= s.len(),
    ensures
        lex_raw_string(s, i) matches Some((a, e)) ==> i < a <= e < s.len(),
{
    lemma_ws_end(s, i);
    let k = ws_end(s, i);
    if 0 <= k < s.len() && s[k] == 34 {
        lemma_quote_scan(s, k + 1);
    }
}

/// The quote scan moves forward and stays in the text.
pub proof fn lemma_quote_scan(s: Seq<u8>, j: int)
    requires
        0 <= j <= s.len(),
    ensures
        j <= quote_scan(s, j) <= s.len(),
    decreases s.len() - j,
{
    if j < s.len() && s[j] != 34 && s[j] != 92 {
        lemma_quote_scan(s, j + 1);
    }
}

/// One more digit: ten times the value so far, plus the digit.
pub proof fn lemma_digits_value_step(s: Seq<u8>, a: int, j: int)
    requires
        0 <= a <= j < s.len(),
    ensures
        digits_value(s.subrange(a, j + 1)) == digits_value(s.subrange(a, j)) * 10 + (s[j] - 48) as nat,
{
    assert(s.subrange(a, j + 1).drop_last() =~= s.subrange(a, j));
}

/// Horner's step commutes with reduction modulo `p`.
pub proof fn lemma_horner_mod(v: int, d: int, p: int)
    requires
        p > 0,
        v >= 0,
        d >= 0,
    ensures
        (v * 10 + d) % p == ((v % p) * 10 + d) % p,
{
    let q = v / p;
    let r = v % p;
    vstd::arithmetic::div_mod::lemma_fundamental_div_mod(v, p);
    assert(v * 10 + d == (q * 10) * p + (r * 10 + d)) by (nonlinear_arith)
        requires
            v == p * q + r,
    ;
    vstd::arithmetic::div_mod::lemma_mod_multiples_vanish(q * 10, r * 10 + d, p);
}

/// The residue of a negated magnitude.
pub proof fn lemma_neg_mod(m: int, p: int)
    requires
        p > 0,
        m >= 0,
    ensures
        (-m) % p == (p - m % p) % p,
        0 <= (p - m % p) % p < p,
{
    let q = m / p;
    let r = m % p;
    vstd::arithmetic::div_mod::lemma_fundamental_div_mod(m, p);
    assert(-m == (-q - 1) * p + (p - r)) by (nonlinear_arith)
        requires
            m == p * q + r,
    ;
    vstd::arithmetic::div_mod::lemma_mod_multiples_vanish(-q - 1, p - r, p);
}

// ---------------------------------------------------------------------------
// The cursor
// ---------------------------------------------------------------------------

/// A cursor over the bytes of a JSON text: whitespace-skipping, for the fixed
/// schema of the emitted descriptors.
pub struct JsonCursor<'a> {
    s: &'a [u8],
    i: usize,
    /// Whether a coefficient that does not fit a BabyBear felt is folded mod
    /// `p` instead of refused (see `parse_int_field`).
    allow_oversized_constants: bool,
}

/// `std::str::from_utf8`: `Some` exactly when the bytes are well-formed UTF-8,
/// holding the decoded text.
#[verifier::external_body]
fn utf8_text(bytes: &[u8]) -> (r: Option<String>)
    ensures
        r is Some <==> valid_utf8(bytes@),
        r matches Some(t) ==> t@ == decode_utf8(bytes@),
{
    match std::str::from_utf8(bytes) {
        Ok(t) => Some(t.to_string()),
        Err(_) => None,
    }
}

/// A whitespace byte, as `is_ws` says.
fn is_ws_byte(b: u8) -> (r: bool)
    ensures
        r == is_ws(b),
{
    b == 9 || b == 10 || b == 11 || b == 12 || b == 13 || b == 32 || b == 0x85 || b == 0xA0
}

/// Append one piece of text.
pub fn push_text(s: &mut String, t: &str)
    ensures
        final(s)@ == old(s)@ + t@,
{
    s.append(t);
}

/// The refusal of a gate coefficient that does not fit a BabyBear felt; it
/// names the literal's position and its number of decimal digits.
fn oversized_constant_error(at: usize, digits: usize) -> (r: String)
    ensures
        r@ == "constant at byte "@ + decimal_spec(at as nat) + " does not fit a BabyBear felt ("@ + decimal_spec(
            digits as nat,
        ) + " decimal digits, p_babybear = "@ + decimal_spec(BABYBEAR_P as nat)
            + "). A gate body carrying it cannot round-trip the field, so its integer semantics say nothing about any proof over it. Re-emit on a felt-sized encoding, or parse through the named unsound escape."@,
{
    let mut s = String::from_str("constant at byte ");
    push_num(&mut s, at as u64);
    push_text(&mut s, " does not fit a BabyBear felt (");
    push_num(&mut s, digits as u64);
    push_text(&mut s, " decimal digits, p_babybear = ");
    push_num(&mut s, BABYBEAR_P as u64);
    push_text(&mut s, "). A gate body carrying it cannot round-trip the field, so its integer semantics say nothing about any proof over it. Re-emit on a felt-sized encoding, or parse through the named unsound escape.");
    s
}

/// An error message with a byte position.
pub(crate) fn error_at(what: &str, at: usize) -> (r: String)
    ensures
        r@ == what@ + " at byte "@ + decimal_spec(at as nat),
{
    let mut s = String::from_str(what);
    push_text(&mut s, " at byte ");
    push_num(&mut s, at as u64);
    s
}

/// What one scan of an integer literal found.
struct IntScan {
    neg: bool,
    start: usize,
    digits_start: usize,
    /// The magnitude, while it is at most `2^63`.
    mag: u128,
    /// The magnitude exceeds `2^63`.
    over: bool,
    /// The magnitude modulo `p`.
    residue: u64,
}

impl<'a> JsonCursor<'a> {
    /// The bytes of the text.
    pub closed spec fn bytes(&self) -> Seq<u8> {
        self.s@
    }

    /// The position of the next byte to read.
    pub closed spec fn pos(&self) -> int {
        self.i as int
    }

    /// Oversized coefficients are refused (rather than folded mod `p`).
    pub closed spec fn strict(&self) -> bool {
        !self.allow_oversized_constants
    }

    /// The position lies in the text.
    pub open spec fn wf(&self) -> bool {
        0 <= self.pos() <= self.bytes().len()
    }

    /// `other` reads the same text under the same rule, at a valid position.
    pub open spec fn same_text(&self, other: &Self) -> bool {
        &&& other.bytes() == self.bytes()
        &&& other.strict() == self.strict()
        &&& other.wf()
    }

    /// A strict cursor at the start of `s`.
    pub fn new(s: &'a str) -> (r: Self)
        ensures
            r.bytes() == s.spec_bytes(),
            r.pos() == 0,
            r.strict(),
            r.wf(),
    {
        JsonCursor { s: s.as_bytes(), i: 0, allow_oversized_constants: false }
    }

    /// A cursor at the start of `s` that folds oversized gate coefficients
    /// mod `p` instead of refusing them. A descriptor that needs this has
    /// gate bodies that cannot round-trip a felt.
    pub fn new_unsound_oversized_constants(s: &'a str) -> (r: Self)
        ensures
            r.bytes() == s.spec_bytes(),
            r.pos() == 0,
            !r.strict(),
            r.wf(),
    {
        JsonCursor { s: s.as_bytes(), i: 0, allow_oversized_constants: true }
    }

    /// Skip whitespace.
    fn skip_ws(&mut self)
        requires
            old(self).wf(),
        ensures
            old(self).same_text(final(self)),
            final(self).pos() == ws_end(old(self).bytes(), old(self).pos()),
    {
        while self.i < self.s.len() && is_ws_byte(self.s[self.i])
            invariant
                self.s@ == old(self).s@,
                self.allow_oversized_constants == old(self).allow_oversized_constants,
                self.i <= self.s@.len(),
                ws_end(self.s@, self.i as int) == ws_end(old(self).s@, old(self).i as int),
            decreases self.s@.len() - self.i,
        {
            self.i = self.i + 1;
        }
    }

    /// The next byte after whitespace (the whitespace is consumed).
    pub(crate) fn peek(&mut self) -> (r: Option<u8>)
        requires
            old(self).wf(),
        ensures
            old(self).same_text(final(self)),
            final(self).pos() == ws_end(old(self).bytes(), old(self).pos()),
            r == peek_byte(old(self).bytes(), old(self).pos()),
    {
        self.skip_ws();
        if self.i < self.s.len() {
            Some(self.s[self.i])
        } else {
            None
        }
    }

    /// Consume the byte `c` after whitespace.
    pub(crate) fn expect(&mut self, c: u8) -> (r: Result<(), String>)
        requires
            old(self).wf(),
        ensures
            old(self).same_text(final(self)),
            r is Ok ==> old(self).pos() < final(self).pos(),
            match lex_byte(old(self).bytes(), old(self).pos(), c) {
                Some(p) => r is Ok && final(self).pos() == p,
                None => r is Err,
            },
    {
        proof {
            lemma_ws_end(self.s@, self.i as int);
        }
        self.skip_ws();
        if self.i < self.s.len() {
            if self.s[self.i] == c {
                self.i = self.i + 1;
                Ok(())
            } else {
                let mut m = String::from_str("expected '");
                push_num(&mut m, c as u64);
                push_text(&mut m, "' at byte ");
                push_num(&mut m, self.i as u64);
                push_text(&mut m, ", found byte ");
                push_num(&mut m, self.s[self.i] as u64);
                Err(m)
            }
        } else {
            let mut m = String::from_str("expected byte ");
            push_num(&mut m, c as u64);
            push_text(&mut m, " but hit end of input");
            Err(m)
        }
    }

    /// A quoted string without escapes: the bounds of its content.
    pub(crate) fn parse_raw_string(&mut self) -> (r: Result<(usize, usize), String>)
        requires
            old(self).wf(),
        ensures
            old(self).same_text(final(self)),
            r is Ok ==> old(self).pos() < final(self).pos(),
            match lex_raw_string(old(self).bytes(), old(self).pos()) {
                Some((a, e)) => r matches Ok((x, y)) && x == a && y == e && final(self).pos() == e + 1,
                None => r is Err,
            },
    {
        proof {
            lemma_ws_end(self.s@, self.i as int);
        }
        match self.expect(34u8) {
            Ok(()) => {},
            Err(e) => {
                return Err(e);
            },
        }
        let start = self.i;
        while self.i < self.s.len() && self.s[self.i] != 34u8
            invariant
                self.s@ == old(self).s@,
                self.allow_oversized_constants == old(self).allow_oversized_constants,
                start <= self.i <= self.s@.len(),
                lex_byte(old(self).s@, old(self).i as int, 34u8) == Some(start as int),
                quote_scan(self.s@, start as int) == quote_scan(self.s@, self.i as int),
            decreases self.s@.len() - self.i,
        {
            if self.s[self.i] == 92u8 {
                assert(quote_scan(self.s@, self.i as int) == self.i as int);
                return Err(error_at("unexpected escape in string", self.i));
            }
            self.i = self.i + 1;
        }
        if self.i >= self.s.len() {
            return Err(String::from_str("unterminated string"));
        }
        let end = self.i;
        self.i = self.i + 1;
        Ok((start, end))
    }

    /// The bytes `[a, e)` of the text, copied out.
    fn copy_range(&self, a: usize, e: usize) -> (r: Vec<u8>)
        requires
            a <= e <= self.bytes().len(),
        ensures
            r@ == self.bytes().subrange(a as int, e as int),
    {
        let mut v: Vec<u8> = Vec::new();
        let mut j = a;
        while j < e
            invariant
                a <= j <= e <= self.s@.len(),
                v@ == self.s@.subrange(a as int, j as int),
            decreases e - j,
        {
            v.push(self.s[j]);
            j = j + 1;
            assert(v@ =~= self.s@.subrange(a as int, j as int));
        }
        v
    }

    /// The bytes `[a, e)` of the text spell `w` exactly.
    pub(crate) fn range_is(&self, a: usize, e: usize, w: &[u8]) -> (r: bool)
        requires
            a <= e <= self.bytes().len(),
        ensures
            r == (self.bytes().subrange(a as int, e as int) == w@),
    {
        if e - a != w.len() {
            return false;
        }
        let mut j: usize = 0;
        while j < w.len()
            invariant
                a <= e <= self.s@.len(),
                e - a == w@.len(),
                j <= w@.len(),
                forall|t: int| 0 <= t < j ==> self.s@[a + t] == w@[t],
            decreases w@.len() - j,
        {
            if self.s[a + j] != w[j] {
                assert(self.s@.subrange(a as int, e as int)[j as int] != w@[j as int]);
                return false;
            }
            j = j + 1;
        }
        assert(self.s@.subrange(a as int, e as int) =~= w@);
        true
    }

    /// The bytes `[a, e)` of the text read as UTF-8, where they are well formed.
    pub(crate) fn range_text(&self, a: usize, e: usize) -> (r: Option<String>)
        requires
            a <= e <= self.bytes().len(),
        ensures
            r is Some <==> valid_utf8(self.bytes().subrange(a as int, e as int)),
            r matches Some(t) ==> t@ == decode_utf8(self.bytes().subrange(a as int, e as int)),
    {
        let v = self.copy_range(a, e);
        utf8_text(v.as_slice())
    }

    /// A double-quoted string (no escapes), decoded as UTF-8.
    pub(crate) fn parse_string(&mut self) -> (r: Result<String, String>)
        requires
            old(self).wf(),
        ensures
            old(self).same_text(final(self)),
            r is Ok ==> old(self).pos() < final(self).pos(),
            match lex_string(old(self).bytes(), old(self).pos()) {
                Some((t, p)) => r matches Ok(x) && x@ == t && final(self).pos() == p,
                None => r is Err,
            },
    {
        proof {
            lemma_raw_string_bounds(self.s@, self.i as int);
        }
        let (a, e) = match self.parse_raw_string() {
            Ok(ae) => ae,
            Err(m) => {
                return Err(m);
            },
        };
        match self.range_text(a, e) {
            Some(t) => Ok(t),
            None => Err(String::from_str("invalid utf8 in string")),
        }
    }

    /// The position of the next byte to read.
    pub(crate) fn position(&self) -> (r: usize)
        ensures
            r == self.pos(),
    {
        self.i
    }

    /// Move back to an earlier-read position of the text.
    pub(crate) fn seek(&mut self, p: usize)
        requires
            p <= old(self).bytes().len(),
        ensures
            old(self).same_text(final(self)),
            final(self).pos() == p,
    {
        self.i = p;
    }

    /// Step over an integer literal without reading its value: whether it
    /// has digits; the cursor ends after them.
    pub(crate) fn skip_int(&mut self) -> (r: bool)
        requires
            old(self).wf(),
        ensures
            old(self).same_text(final(self)),
            final(self).pos() == int_digits_end(old(self).bytes(), old(self).pos()),
            old(self).pos() <= final(self).pos(),
            r == (int_digits_end(old(self).bytes(), old(self).pos()) != int_digits_start(
                old(self).bytes(),
                old(self).pos(),
            )),
    {
        let scan = self.scan_int();
        scan.digits_start != self.i
    }

    /// Scan an optional minus sign and a run of digits after whitespace.
    fn scan_int(&mut self) -> (r: IntScan)
        requires
            old(self).wf(),
        ensures
            old(self).same_text(final(self)),
            r.neg == int_neg(old(self).bytes(), old(self).pos()),
            r.start == ws_end(old(self).bytes(), old(self).pos()),
            r.digits_start == int_digits_start(old(self).bytes(), old(self).pos()),
            final(self).pos() == int_digits_end(old(self).bytes(), old(self).pos()),
            old(self).pos() <= r.start <= r.digits_start <= final(self).pos(),
            ({
                let dv = digits_value(
                    old(self).bytes().subrange(r.digits_start as int, final(self).pos()),
                );
                &&& !r.over ==> r.mag == dv && dv <= 0x8000_0000_0000_0000
                &&& r.over ==> dv > 0x8000_0000_0000_0000
                &&& r.residue == dv % (BABYBEAR_P as nat)
            }),
    {
        proof {
            lemma_ws_end(self.s@, self.i as int);
        }
        self.skip_ws();
        let start = self.i;
        let mut neg = false;
        if self.i < self.s.len() && self.s[self.i] == 45u8 {
            neg = true;
            self.i = self.i + 1;
        }
        let ds = self.i;
        let mut mag: u128 = 0;
        let mut over = false;
        let mut residue: u64 = 0;
        let p: u64 = BABYBEAR_P as u64;
        while self.i < self.s.len() && 48u8 <= self.s[self.i] && self.s[self.i] <= 57u8
            invariant
                self.s@ == old(self).s@,
                self.allow_oversized_constants == old(self).allow_oversized_constants,
                ds <= self.i <= self.s@.len(),
                p == BABYBEAR_P,
                digits_end(self.s@, ds as int) == digits_end(self.s@, self.i as int),
                !over ==> mag == digits_value(self.s@.subrange(ds as int, self.i as int))
                    && mag <= 0x8000_0000_0000_0000,
                over ==> digits_value(self.s@.subrange(ds as int, self.i as int)) > 0x8000_0000_0000_0000,
                residue == digits_value(self.s@.subrange(ds as int, self.i as int)) % (p as nat),
            decreases self.s@.len() - self.i,
        {
            let d: u8 = self.s[self.i] - 48u8;
            proof {
                lemma_digits_value_step(self.s@, ds as int, self.i as int);
                lemma_horner_mod(
                    digits_value(self.s@.subrange(ds as int, self.i as int)) as int,
                    d as int,
                    p as int,
                );
            }
            if !over {
                let next: u128 = mag * 10 + d as u128;
                if next > 0x8000_0000_0000_0000u128 {
                    over = true;
                } else {
                    mag = next;
                }
            }
            residue = (residue * 10 + d as u64) % p;
            self.i = self.i + 1;
        }
        IntScan { neg, start, digits_start: ds, mag, over, residue }
    }

    /// An optional minus sign and at least one digit, as an `i64`.
    pub(crate) fn parse_int(&mut self) -> (r: Result<i64, String>)
        requires
            old(self).wf(),
        ensures
            old(self).same_text(final(self)),
            r is Ok ==> old(self).pos() < final(self).pos(),
            match lex_int(old(self).bytes(), old(self).pos()) {
                Some((v, p)) => r == Ok::<i64, String>(v) && final(self).pos() == p,
                None => r is Err,
            },
    {
        let sc = self.scan_int();
        if self.i == sc.digits_start {
            return Err(error_at("expected integer", sc.start));
        }
        if sc.over {
            return Err(error_at("malformed integer", sc.start));
        }
        if sc.neg {
            if sc.mag == 0x8000_0000_0000_0000u128 {
                Ok(i64::MIN)
            } else {
                Ok(0i64 - (sc.mag as i64))
            }
        } else if sc.mag <= 0x7FFF_FFFF_FFFF_FFFFu128 {
            Ok(sc.mag as i64)
        } else {
            Err(error_at("malformed integer", sc.start))
        }
    }

    /// An integer literal that denotes a field element: a coefficient whose
    /// magnitude reaches `p` is refused on a strict cursor; otherwise an
    /// `i64` literal is returned as written and a wider one is reduced to its
    /// residue in `[0, p)`.
    pub(crate) fn parse_int_field(&mut self) -> (r: Result<i64, String>)
        requires
            old(self).wf(),
        ensures
            old(self).same_text(final(self)),
            r is Ok ==> old(self).pos() < final(self).pos(),
            match lex_int_field(old(self).bytes(), old(self).pos(), old(self).strict()) {
                Some((v, p)) => r == Ok::<i64, String>(v) && final(self).pos() == p,
                None => r is Err,
            },
    {
        let ghost s0 = self.s@;
        let ghost i0 = self.i as int;
        let sc = self.scan_int();
        let ndigits = self.i - sc.digits_start;
        if self.i == sc.digits_start {
            return Err(error_at("expected integer", sc.start));
        }
        let ghost v = int_literal(s0, i0);
        let fits = !sc.over && (if sc.neg {
            sc.mag <= 0x8000_0000_0000_0000u128
        } else {
            sc.mag <= 0x7FFF_FFFF_FFFF_FFFFu128
        });
        assert(fits == fits_i64(v));
        if fits {
            if !self.allow_oversized_constants && sc.mag >= BABYBEAR_P as u128 {
                return Err(oversized_constant_error(sc.start, ndigits));
            }
            if sc.neg {
                if sc.mag == 0x8000_0000_0000_0000u128 {
                    Ok(i64::MIN)
                } else {
                    Ok(0i64 - (sc.mag as i64))
                }
            } else {
                Ok(sc.mag as i64)
            }
        } else {
            if !self.allow_oversized_constants {
                return Err(oversized_constant_error(sc.start, ndigits));
            }
            let p: u64 = BABYBEAR_P as u64;
            let acc: u64 = if sc.neg {
                (p - sc.residue) % p
            } else {
                sc.residue
            };
            proof {
                let m = digits_value(s0.subrange(sc.digits_start as int, self.i as int)) as int;
                if sc.neg {
                    lemma_neg_mod(m, p as int);
                }
            }
            Ok(acc as i64)
        }
    }

    /// Whether the bytes at the position begin with `w`.
    fn starts_with_word(&self, w: &[u8]) -> (r: bool)
        requires
            self.wf(),
        ensures
            r == starts_with_at(self.bytes(), self.pos(), w@),
            self.bytes().len() <= usize::MAX,
    {
        if w.len() > self.s.len() - self.i {
            return false;
        }
        self.range_is(self.i, self.i + w.len(), w)
    }

    /// Consume a bare `null` if one is next (after whitespace), reporting
    /// whether it did.
    pub fn try_null(&mut self) -> (r: Result<bool, String>)
        requires
            old(self).wf(),
        ensures
            old(self).same_text(final(self)),
            r == Ok::<bool, String>(lex_null(old(self).bytes(), old(self).pos()).0),
            final(self).pos() == lex_null(old(self).bytes(), old(self).pos()).1,
    {
        proof {
            lemma_ws_end(self.s@, self.i as int);
        }
        self.skip_ws();
        let w = "null".as_bytes();
        if self.starts_with_word(w) {
            assert(self.i + w@.len() <= self.s@.len());
            self.i = self.i + w.len();
            Ok(true)
        } else {
            Ok(false)
        }
    }

    /// A bare `true` or `false` (after whitespace).
    pub fn parse_bool(&mut self) -> (r: Result<bool, String>)
        requires
            old(self).wf(),
        ensures
            old(self).same_text(final(self)),
            match lex_bool(old(self).bytes(), old(self).pos()) {
                Some((b, p)) => r == Ok::<bool, String>(b) && final(self).pos() == p,
                None => r is Err,
            },
    {
        proof {
            lemma_ws_end(self.s@, self.i as int);
        }
        self.skip_ws();
        let t = "true".as_bytes();
        let f = "false".as_bytes();
        if self.starts_with_word(t) {
            self.i = self.i + t.len();
            Ok(true)
        } else if self.starts_with_word(f) {
            self.i = self.i + f.len();
            Ok(false)
        } else {
            Err(error_at("expected boolean", self.i))
        }
    }
}

} // verus!
