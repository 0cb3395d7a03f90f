//! Decimal rendering of integers, for identities and refusal messages.
use vstd::prelude::*;

verus! {

/// The ASCII digit of `d < 10`.
pub open spec fn digit_char(d: int) -> char {
    seq!['0', '1', '2', '3', '4', '5', '6', '7', '8', '9'][d]
}

/// The decimal digits of `n`, most significant first, without leading zeros.
pub open spec fn decimal_spec(n: nat) -> Seq<char>
    decreases n,
{
    if n < 10 {
        seq![digit_char(n as int)]
    } else {
        decimal_spec(n / 10).push(digit_char((n % 10) as int))
    }
}

/// The one-character string of a digit.
fn digit_str(d: u64) -> (r: &'static str)
    requires
        d < 10,
    ensures
        r@ == seq![digit_char(d as int)],
{
    proof {
        reveal_strlit("0");
        reveal_strlit("1");
        reveal_strlit("2");
        reveal_strlit("3");
        reveal_strlit("4");
        reveal_strlit("5");
        reveal_strlit("6");
        reveal_strlit("7");
        reveal_strlit("8");
        reveal_strlit("9");
    }
    if d == 0 {
        "0"
    } else if d == 1 {
        "1"
    } else if d == 2 {
        "2"
    } else if d == 3 {
        "3"
    } else if d == 4 {
        "4"
    } else if d == 5 {
        "5"
    } else if d == 6 {
        "6"
    } else if d == 7 {
        "7"
    } else if d == 8 {
        "8"
    } else {
        "9"
    }
}

/// The decimal rendering of `n`.
pub fn decimal(n: u64) -> (r: String)
    ensures
        r@ == decimal_spec(n as nat),
    decreases n,
{
    if n < 10 {
        String::from_str(digit_str(n))
    } else {
        let mut s = decimal(n / 10);
        s.append(digit_str(n % 10));
        s
    }
}

/// Append the decimal rendering of `n`.
pub fn push_num(s: &mut String, n: u64)
    ensures
        final(s)@ == old(s)@ + decimal_spec(n as nat),
{
    let d = decimal(n);
    s.append(d.as_str());
}

/// The signed decimal rendering of `v`: a minus sign before the magnitude
/// of a negative value.
pub open spec fn signed_decimal_spec(v: int) -> Seq<char> {
    if v < 0 {
        seq!['-'] + decimal_spec((-v) as nat)
    } else {
        decimal_spec(v as nat)
    }
}

/// Append the signed decimal rendering of `v`.
pub fn push_int(s: &mut String, v: i64)
    ensures
        final(s)@ == old(s)@ + signed_decimal_spec(v as int),
{
    if v < 0 {
        proof {
            reveal_strlit("-");
        }
        s.append("-");
        let m: u64 = (0i128 - v as i128) as u64;
        let d = decimal(m);
        s.append(d.as_str());
        assert(old(s)@ + seq!['-'] + decimal_spec(m as nat) =~= old(s)@ + (seq!['-'] + decimal_spec(m as nat)));
    } else {
        let d = decimal(v as u64);
        s.append(d.as_str());
    }
}


/// The value of a decimal digit character.
pub open spec fn char_value(c: char) -> int {
    (c as int) - ('0' as int)
}

/// A character `'0'` to `'9'`.
pub open spec fn is_decimal_digit(c: char) -> bool {
    '0' <= c && c <= '9'
}

/// The number a string of decimal digits spells, most significant first.
pub open spec fn decimal_value(s: Seq<char>) -> int
    decreases s.len(),
{
    if s.len() == 0 {
        0
    } else {
        decimal_value(s.drop_last()) * 10 + char_value(s.last())
    }
}

/// The digit character of `d < 10` is the character `'0' + d`.
proof fn lemma_digit_char(d: int)
    requires
        0 <= d < 10,
    ensures
        is_decimal_digit(digit_char(d)),
        char_value(digit_char(d)) == d,
{
    let ds = seq!['0', '1', '2', '3', '4', '5', '6', '7', '8', '9'];
    assert(digit_char(d) == ds[d]);
    if d == 0 {
        assert(ds[0] == '0');
    } else if d == 1 {
        assert(ds[1] == '1');
    } else if d == 2 {
        assert(ds[2] == '2');
    } else if d == 3 {
        assert(ds[3] == '3');
    } else if d == 4 {
        assert(ds[4] == '4');
    } else if d == 5 {
        assert(ds[5] == '5');
    } else if d == 6 {
        assert(ds[6] == '6');
    } else if d == 7 {
        assert(ds[7] == '7');
    } else if d == 8 {
        assert(ds[8] == '8');
    } else {
        assert(ds[9] == '9');
    }
}

/// **The decimal rendering is the standard base-10 numeral**: it is a
/// non-empty string of digit characters that reads back as `n`, with no
/// leading zero unless `n` is `0` itself.
pub proof fn lemma_decimal_reads_back(n: nat)
    ensures
        decimal_spec(n).len() >= 1,
        forall|i: int| 0 <= i < decimal_spec(n).len() ==> is_decimal_digit(#[trigger] decimal_spec(n)[i]),
        decimal_value(decimal_spec(n)) == n,
        n > 0 ==> decimal_spec(n)[0] != '0',
    decreases n,
{
    if n < 10 {
        lemma_digit_char(n as int);
        assert(decimal_spec(n).drop_last() =~= Seq::<char>::empty());
        assert(decimal_value(Seq::<char>::empty()) == 0);
        assert(decimal_value(decimal_spec(n)) == decimal_value(decimal_spec(n).drop_last()) * 10 + char_value(
            decimal_spec(n).last(),
        ));
        if n > 0 {
            assert(char_value(decimal_spec(n)[0]) == n);
        }
    } else {
        lemma_decimal_reads_back(n / 10);
        lemma_digit_char((n % 10) as int);
        let s = decimal_spec(n);
        let t = decimal_spec(n / 10);
        assert(s == t.push(digit_char((n % 10) as int)));
        assert(s.drop_last() =~= t);
        assert(s.last() == digit_char((n % 10) as int));
        assert(decimal_value(s) == decimal_value(t) * 10 + char_value(s.last()));
        assert(n == (n / 10) * 10 + n % 10);
        assert forall|i: int| 0 <= i < s.len() implies is_decimal_digit(#[trigger] s[i]) by {
            if i < t.len() {
                assert(s[i] == t[i]);
            }
        }
        assert(s[0] == t[0]);
    }
}

} // verus!
