//! The grammar of a JSON number, and a text that is known to follow it.

use vstd::prelude::*;
use vstd::utf8::encode_utf8;

verus! {

/// `b` is one of the ASCII digits `0` to `9`.
pub open spec fn is_digit(b: u8) -> bool {
    '0' as u8 <= b <= '9' as u8
}

/// Every byte of `s` is a digit.
pub open spec fn all_digits(s: Seq<u8>) -> bool {
    forall|k: int| 0 <= k < s.len() ==> is_digit(#[trigger] s[k])
}

/// The integer part of a number: at least one digit, and no zero in front of
/// another digit.
pub open spec fn is_int_part(s: Seq<u8>) -> bool {
    &&& s.len() >= 1
    &&& all_digits(s)
    &&& s[0] == '0' as u8 ==> s.len() == 1
}

/// The fraction of a number, which may be missing: a decimal point and at
/// least one digit.
pub open spec fn is_frac_part(s: Seq<u8>) -> bool {
    s.len() == 0 || (s.len() >= 2 && s[0] == '.' as u8 && all_digits(s.skip(1)))
}

/// At least one digit, with or without a sign in front.
pub open spec fn is_signed_digits(s: Seq<u8>) -> bool {
    ||| s.len() >= 1 && all_digits(s)
    ||| s.len() >= 2 && (s[0] == '+' as u8 || s[0] == '-' as u8) && all_digits(s.skip(1))
}

/// The exponent of a number, which may be missing: the letter `e` in either
/// case, then digits with or without a sign.
pub open spec fn is_exp_part(s: Seq<u8>) -> bool {
    s.len() == 0 || ((s[0] == 'e' as u8 || s[0] == 'E' as u8) && is_signed_digits(s.skip(1)))
}

/// `s` is made of an optional minus sign and the three parts of a number.
pub open spec fn splits_as(
    s: Seq<u8>,
    negative: bool,
    whole: Seq<u8>,
    frac: Seq<u8>,
    exp: Seq<u8>,
) -> bool {
    &&& is_int_part(whole)
    &&& is_frac_part(frac)
    &&& is_exp_part(exp)
    &&& s == (if negative { seq!['-' as u8] } else { Seq::empty() }) + whole + frac + exp
}

/// `s` is a number in JSON's notation: an optional minus sign, an integer
/// part, an optional fraction and an optional exponent, and nothing else.
pub open spec fn is_number(s: Seq<u8>) -> bool {
    exists|negative: bool, whole: Seq<u8>, frac: Seq<u8>, exp: Seq<u8>| #[trigger]
        splits_as(s, negative, whole, frac, exp)
}

/// `b` is a byte that a number can hold: a digit, a sign, the decimal point
/// or the letter `e` in either case.
pub open spec fn is_number_byte(b: u8) -> bool {
    ||| is_digit(b)
    ||| b == '+' as u8
    ||| b == '-' as u8
    ||| b == '.' as u8
    ||| b == 'e' as u8
    ||| b == 'E' as u8
}

/// A number holds no other bytes than those.
pub proof fn lemma_number_bytes(s: Seq<u8>)
    requires
        is_number(s),
    ensures
        s.len() >= 1,
        forall|i: int| 0 <= i < s.len() ==> is_number_byte(#[trigger] s[i]),
{
    let (negative, whole, frac, exp) = choose|
        negative: bool,
        whole: Seq<u8>,
        frac: Seq<u8>,
        exp: Seq<u8>,
    | #[trigger] splits_as(s, negative, whole, frac, exp);
    let sign = if negative { seq!['-' as u8] } else { Seq::<u8>::empty() };
    assert forall|i: int| 0 <= i < frac.len() implies is_number_byte(#[trigger] frac[i]) by {
        if i > 0 {
            assert(is_digit(frac.skip(1)[i - 1]));
        }
    }
    assert forall|i: int| 0 <= i < exp.len() implies is_number_byte(#[trigger] exp[i]) by {
        let rest = exp.skip(1);
        if i > 0 {
            assert(exp[i] == rest[i - 1]);
            if rest.len() >= 1 && all_digits(rest) {
                assert(is_digit(rest[i - 1]));
            } else if i > 1 {
                assert(is_digit(rest.skip(1)[i - 2]));
            }
        }
    }
    assert forall|i: int| 0 <= i < s.len() implies is_number_byte(#[trigger] s[i]) by {
        let a = sign.len();
        let b = a + whole.len();
        let c = b + frac.len();
        if i < a {
            assert(s[i] == sign[i]);
        } else if i < b {
            assert(s[i] == whole[i - a]);
        } else if i < c {
            assert(s[i] == frac[i - b]);
        } else {
            assert(s[i] == exp[i - c]);
        }
    }
}

/// Where the digits of `s` that start at `from` end.
spec fn run_end(s: Seq<u8>, from: int) -> int
    decreases s.len() - from,
{
    if 0 <= from < s.len() && is_digit(s[from]) {
        run_end(s, from + 1)
    } else {
        from
    }
}

/// `run_end(s, from)` is the one place `to` with digits from `from` up to it
/// and no digit at it.
proof fn lemma_run_end(s: Seq<u8>, from: int, to: int)
    requires
        0 <= from <= to <= s.len(),
        forall|k: int| from <= k < to ==> is_digit(#[trigger] s[k]),
        to < s.len() ==> !is_digit(s[to]),
    ensures
        run_end(s, from) == to,
    decreases to - from,
{
    if from < to {
        lemma_run_end(s, from + 1, to);
    }
}

/// The digits that `run_end` passes over are digits, and it stops within `s`.
proof fn lemma_run_digits(s: Seq<u8>, from: int)
    requires
        0 <= from <= s.len(),
    ensures
        from <= run_end(s, from) <= s.len(),
        forall|k: int| from <= k < run_end(s, from) ==> is_digit(#[trigger] s[k]),
        run_end(s, from) < s.len() ==> !is_digit(s[run_end(s, from)]),
    decreases s.len() - from,
{
    if from < s.len() && is_digit(s[from]) {
        lemma_run_digits(s, from + 1);
    }
}

/// How many bytes the sign takes: one where `s` starts with a minus sign.
spec fn sign_end(s: Seq<u8>) -> int {
    if s.len() > 0 && s[0] == '-' as u8 {
        1
    } else {
        0
    }
}

/// Where the integer part ends when `s` is read from the left.
spec fn int_end(s: Seq<u8>) -> int {
    run_end(s, sign_end(s))
}

/// A decimal point follows the integer part.
spec fn has_frac(s: Seq<u8>) -> bool {
    int_end(s) < s.len() && s[int_end(s)] == '.' as u8
}

/// Where the fraction ends; where the integer part ends if there is none.
spec fn frac_end(s: Seq<u8>) -> int {
    if has_frac(s) {
        run_end(s, int_end(s) + 1)
    } else {
        int_end(s)
    }
}

/// The letter `e` follows the fraction.
spec fn has_exp(s: Seq<u8>) -> bool {
    frac_end(s) < s.len() && (s[frac_end(s)] == 'e' as u8 || s[frac_end(s)] == 'E' as u8)
}

/// Where the digits of the exponent start: behind the letter and the sign.
spec fn exp_digits(s: Seq<u8>) -> int {
    let at = frac_end(s) + 1;
    if at < s.len() && (s[at] == '+' as u8 || s[at] == '-' as u8) {
        at + 1
    } else {
        at
    }
}

/// Where the exponent ends; where the fraction ends if there is none.
spec fn exp_end(s: Seq<u8>) -> int {
    if has_exp(s) {
        run_end(s, exp_digits(s))
    } else {
        frac_end(s)
    }
}

/// Reading `s` from the left finds a number and nothing behind it.
spec fn scans(s: Seq<u8>) -> bool {
    &&& int_end(s) > sign_end(s)
    &&& s[sign_end(s)] == '0' as u8 ==> int_end(s) == sign_end(s) + 1
    &&& has_frac(s) ==> frac_end(s) > int_end(s) + 1
    &&& has_exp(s) ==> exp_end(s) > exp_digits(s)
    &&& exp_end(s) == s.len()
}

/// What reading from the left accepts is a number: the places where it
/// stopped cut `s` into the parts.
proof fn lemma_scanned_is_number(s: Seq<u8>)
    requires
        scans(s),
    ensures
        is_number(s),
{
    let a = sign_end(s);
    let b = int_end(s);
    let c = frac_end(s);
    lemma_run_digits(s, a);
    if has_frac(s) {
        lemma_run_digits(s, b + 1);
    }
    if has_exp(s) {
        lemma_run_digits(s, exp_digits(s));
    }
    let whole = s.subrange(a, b);
    let frac = s.subrange(b, c);
    let exp = s.subrange(c, s.len() as int);
    assert(is_int_part(whole));
    assert(is_frac_part(frac)) by {
        if has_frac(s) {
            assert(forall|k: int| 0 <= k < frac.skip(1).len() ==> frac.skip(1)[k] == s[b + 1 + k]);
        }
    }
    assert(is_exp_part(exp)) by {
        if has_exp(s) {
            let rest = exp.skip(1);
            let d = exp_digits(s);
            assert(forall|k: int| 0 <= k < rest.len() ==> rest[k] == s[c + 1 + k]);
            if d == c + 1 {
                assert(rest.len() >= 1 && all_digits(rest));
            } else {
                let digits = rest.skip(1);
                assert(forall|k: int| 0 <= k < digits.len() ==> digits[k] == s[c + 2 + k]);
                assert(rest.len() >= 2 && all_digits(digits));
            }
        }
    }
    let sign = if a == 1 { seq!['-' as u8] } else { Seq::empty() };
    assert(s =~= sign + whole + frac + exp);
    assert(splits_as(s, a == 1, whole, frac, exp));
}

/// A number is accepted when read from the left: its parts leave no choice
/// of where to stop.
proof fn lemma_number_scans(
    s: Seq<u8>,
    negative: bool,
    whole: Seq<u8>,
    frac: Seq<u8>,
    exp: Seq<u8>,
)
    requires
        splits_as(s, negative, whole, frac, exp),
    ensures
        scans(s),
{
    let a: int = if negative { 1 } else { 0 };
    let b = a + whole.len();
    let c = b + frac.len();
    assert(s.len() == c + exp.len());
    assert(forall|k: int| 0 <= k < whole.len() ==> s[a + k] == whole[k]);
    assert(forall|k: int| 0 <= k < frac.len() ==> s[b + k] == frac[k]);
    assert(forall|k: int| 0 <= k < exp.len() ==> s[c + k] == exp[k]);
    assert(s[a] == whole[0]);
    assert(sign_end(s) == a);
    assert(int_end(s) == b) by {
        assert forall|k: int| a <= k < b implies is_digit(#[trigger] s[k]) by {
            assert(s[k] == whole[k - a]);
        }
        if b < s.len() {
            if frac.len() > 0 {
                assert(s[b] == frac[0]);
            } else {
                assert(s[b] == exp[0]);
            }
        }
        lemma_run_end(s, a, b);
    }
    assert(has_frac(s) == (frac.len() > 0)) by {
        if frac.len() > 0 {
            assert(s[b] == frac[0]);
        } else if b < s.len() {
            assert(s[b] == exp[0]);
        }
    }
    assert(frac_end(s) == c) by {
        if frac.len() > 0 {
            assert forall|k: int| b + 1 <= k < c implies is_digit(#[trigger] s[k]) by {
                assert(s[k] == frac[k - b]);
                assert(frac[k - b] == frac.skip(1)[k - b - 1]);
            }
            if c < s.len() {
                assert(s[c] == exp[0]);
            }
            lemma_run_end(s, b + 1, c);
        }
    }
    assert(has_exp(s) == (exp.len() > 0)) by {
        if exp.len() > 0 {
            assert(s[c] == exp[0]);
        }
    }
    if exp.len() > 0 {
        let rest = exp.skip(1);
        assert(rest.len() >= 1);
        assert(s[c + 1] == exp[1]);
        assert(rest[0] == exp[1]);
        let d: int = if rest[0] == '+' as u8 || rest[0] == '-' as u8 { c + 2 } else { c + 1 };
        assert(exp_digits(s) == d);
        assert(d < s.len());
        assert forall|k: int| d <= k < s.len() implies is_digit(#[trigger] s[k]) by {
            assert(s[k] == exp[k - c]);
            if d == c + 1 {
                assert(exp[k - c] == rest[k - c - 1]);
            } else {
                assert(exp[k - c] == rest.skip(1)[k - c - 2]);
            }
        }
        lemma_run_end(s, d, s.len() as int);
    }
}

/// Reading from the left accepts the numbers and nothing else.
proof fn lemma_scans_iff_number(s: Seq<u8>)
    ensures
        scans(s) == is_number(s),
{
    if scans(s) {
        lemma_scanned_is_number(s);
    }
    if is_number(s) {
        let (negative, whole, frac, exp) = choose|
            negative: bool,
            whole: Seq<u8>,
            frac: Seq<u8>,
            exp: Seq<u8>,
        | #[trigger] splits_as(s, negative, whole, frac, exp);
        lemma_number_scans(s, negative, whole, frac, exp);
    }
}

/// Where the digits of `bytes` that start at `from` end.
fn skip_digits(bytes: &[u8], from: usize) -> (to: usize)
    requires
        from <= bytes@.len(),
    ensures
        to == run_end(bytes@, from as int),
        from <= to <= bytes@.len(),
{
    let mut to: usize = from;
    while to < bytes.len() && '0' as u8 <= bytes[to] && bytes[to] <= '9' as u8
        invariant
            from <= to <= bytes@.len(),
            forall|k: int| from <= k < to ==> is_digit(#[trigger] bytes@[k]),
        decreases bytes@.len() - to,
    {
        to += 1;
    }
    proof {
        lemma_run_end(bytes@, from as int, to as int);
    }
    to
}

/// Whether `bytes` is a number in JSON's notation.
pub fn is_number_text(bytes: &[u8]) -> (ok: bool)
    ensures
        ok == is_number(bytes@),
{
    proof {
        lemma_scans_iff_number(bytes@);
    }
    let len = bytes.len();
    let start: usize = if len > 0 && bytes[0] == '-' as u8 { 1 } else { 0 };
    let whole_end = skip_digits(bytes, start);
    if whole_end == start || (bytes[start] == '0' as u8 && whole_end - start > 1) {
        return false;
    }
    let mut at: usize = whole_end;
    if at < len && bytes[at] == '.' as u8 {
        let end = skip_digits(bytes, at + 1);
        if end == at + 1 {
            return false;
        }
        at = end;
    }
    if at < len && (bytes[at] == 'e' as u8 || bytes[at] == 'E' as u8) {
        let mut digits_at: usize = at + 1;
        if digits_at < len && (bytes[digits_at] == '+' as u8 || bytes[digits_at] == '-' as u8) {
            digits_at += 1;
        }
        let end = skip_digits(bytes, digits_at);
        if end == digits_at {
            return false;
        }
        at = end;
    }
    at == len
}

/// A number in JSON's notation, kept as the text that it was read from.
///
/// It stands for a value that is no integer, such as a coordinate in degrees:
/// the text is what a document shows of it, digit for digit.
#[derive(Debug, PartialEq, Eq)]
pub struct Decimal {
    text: String,
}

impl Clone for Decimal {
    fn clone(&self) -> (copy: Self)
        ensures
            copy@ == self@,
    {
        proof {
            use_type_invariant(self);
        }
        Decimal { text: self.text.clone() }
    }
}

impl View for Decimal {
    type V = Seq<u8>;

    /// The bytes of the text.
    closed spec fn view(&self) -> Seq<u8> {
        encode_utf8(self.text@)
    }
}

impl Decimal {
    /// What holds of every value of this type: its text is a number.
    #[verifier::type_invariant]
    pub open spec fn well_formed(&self) -> bool {
        is_number(self@)
    }

    /// Reads `text` as a number: `Some` where it is one in JSON's notation,
    /// holding that text unchanged, and `None` where it is not.
    pub fn parse(text: &str) -> (parsed: Option<Decimal>)
        ensures
            parsed is Some == is_number(encode_utf8(text@)),
            parsed matches Some(number) ==> number@ == encode_utf8(text@),
    {
        if is_number_text(text.as_bytes()) {
            Some(Decimal { text: text.to_owned() })
        } else {
            None
        }
    }

    /// The text of the number.
    pub fn as_str(&self) -> (text: &str)
        ensures
            encode_utf8(text@) == self@,
            is_number(self@),
    {
        proof {
            use_type_invariant(self);
        }
        self.text.as_str()
    }
}

} // verus!
