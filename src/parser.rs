use vstd::prelude::*;
use vstd::utf8::*;

use crate::atom::{views, Atom, AtomView, BuiltIn};
use crate::error::{ParseError, ParseReason};
use crate::number::{
    abs, decimal_digits, digit_char, lemma_integer_text, lemma_power_pos, power, with_sign, Number,
    MAX_SCALE,
};
use crate::roman::{numeral_value, roman_value};
use crate::smaz_codec::{decompress_bytes, smaz_decompressed};
use crate::strings::{byte_range, find_high_byte, has_high_byte, string_from_utf8};

verus! {

pub const SPACE: u8 = 32;
pub const TAB: u8 = 9;
pub const NEWLINE: u8 = 10;
pub const RETURN: u8 = 13;
pub const DIGIT_ZERO: u8 = 48;
pub const DIGIT_NINE: u8 = 57;
pub const LOWER_A: u8 = 97;
pub const LOWER_Z: u8 = 122;
pub const UPPER_A: u8 = 65;
pub const UPPER_Z: u8 = 90;
pub const HASH: u8 = 35;
pub const LOWER_T: u8 = 116;
pub const LOWER_F: u8 = 102;
pub const BACKTICK: u8 = 96;
pub const QUOTE: u8 = 34;
pub const MINUS: u8 = 45;
pub const DOT: u8 = 46;
pub const COMMA: u8 = 44;
pub const PLUS: u8 = 43;
pub const STAR: u8 = 42;
pub const SLASH: u8 = 47;
pub const EQUALS: u8 = 61;
pub const BANG: u8 = 33;
pub const CARET: u8 = 94;
pub const PERCENT: u8 = 37;
pub const UPPER_R: u8 = 82;
pub const LOWER_N: u8 = 110;
pub const LOWER_C: u8 = 99;
pub const LOWER_D: u8 = 100;
pub const LOWER_M: u8 = 109;
pub const LOWER_P: u8 = 112;

pub open spec fn is_space(c: u8) -> bool {
    c == SPACE || c == TAB || c == NEWLINE || c == RETURN
}

pub open spec fn is_digit(c: u8) -> bool {
    DIGIT_ZERO <= c <= DIGIT_NINE
}

pub open spec fn is_letter(c: u8) -> bool {
    (LOWER_A <= c <= LOWER_Z) || (UPPER_A <= c <= UPPER_Z)
}

/// The first index from `i` on whose byte is not white space, or the length.
pub open spec fn skip_space(b: Seq<u8>, i: int) -> int
    decreases b.len() - i,
{
    if i < 0 || i >= b.len() || !is_space(b[i]) {
        i
    } else {
        skip_space(b, i + 1)
    }
}

/// The first index from `i` on whose byte is not a digit, or the length.
pub open spec fn digits_end(b: Seq<u8>, i: int) -> int
    decreases b.len() - i,
{
    if i < 0 || i >= b.len() || !is_digit(b[i]) {
        i
    } else {
        digits_end(b, i + 1)
    }
}

/// The first index from `i` on whose byte is not an ASCII letter, or the length.
pub open spec fn letters_end(b: Seq<u8>, i: int) -> int
    decreases b.len() - i,
{
    if i < 0 || i >= b.len() || !is_letter(b[i]) {
        i
    } else {
        letters_end(b, i + 1)
    }
}

/// The first index from `i` on whose byte is `c`, or the length.
pub open spec fn find_byte(b: Seq<u8>, i: int, c: u8) -> int
    decreases b.len() - i,
{
    if i < 0 || i >= b.len() || b[i] == c {
        i
    } else {
        find_byte(b, i + 1, c)
    }
}

/// The decimal value of the digits `b[i..j]`.
pub open spec fn digits_value(b: Seq<u8>, i: int, j: int) -> nat
    decreases j - i,
{
    if j <= i {
        0
    } else {
        digits_value(b, i, j - 1) * 10 + (b[j - 1] - DIGIT_ZERO) as nat
    }
}

/// The operation a single byte stands for, if any.
pub open spec fn operator_of(c: u8) -> Option<BuiltIn> {
    if c == UPPER_R {
        Some(BuiltIn::Root)
    } else if c == PLUS {
        Some(BuiltIn::Plus)
    } else if c == MINUS {
        Some(BuiltIn::Minus)
    } else if c == STAR {
        Some(BuiltIn::Times)
    } else if c == SLASH {
        Some(BuiltIn::Divide)
    } else if c == EQUALS {
        Some(BuiltIn::Equal)
    } else if c == BANG {
        Some(BuiltIn::Factorial)
    } else if c == CARET {
        Some(BuiltIn::Power)
    } else if c == PERCENT {
        Some(BuiltIn::Modulus)
    } else if c == LOWER_N {
        Some(BuiltIn::Not)
    } else if c == COMMA {
        Some(BuiltIn::PrintLn)
    } else if c == DOT {
        Some(BuiltIn::Print)
    } else {
        None
    }
}

/// Whether `b[p..]` starts with the three bytes `x`, `y`, `z`.
pub open spec fn has_word(b: Seq<u8>, p: int, x: u8, y: u8, z: u8) -> bool {
    p + 3 <= b.len() && b[p] == x && b[p + 1] == y && b[p + 2] == z
}

pub open spec fn is_sign(c: u8) -> bool {
    c == MINUS || c == PLUS
}

/// Whether a number literal starts at `p`: a digit, or a sign and a digit.
pub open spec fn starts_number(b: Seq<u8>, p: int) -> bool {
    (p < b.len() && is_digit(b[p])) || (p + 1 < b.len() && is_sign(b[p]) && is_digit(b[p + 1]))
}

pub open spec fn digit_value(c: u8) -> nat {
    (c - DIGIT_ZERO) as nat
}

/// Takes the digits of `frac` from index `j` on onto the mantissa `m`, one by one, while the
/// mantissa stays within `i64` and at most `MAX_SCALE` digits are taken; gives the mantissa
/// and how many digits it took.
pub open spec fn fit_fraction(frac: Seq<u8>, m: nat, j: nat) -> (nat, nat)
    decreases frac.len() - j,
{
    if j < frac.len() && j < MAX_SCALE && m * 10 + digit_value(frac[j as int]) <= i64::MAX {
        fit_fraction(frac, m * 10 + digit_value(frac[j as int]), j + 1)
    } else {
        (m, j)
    }
}

/// The number that a literal with integer digits `int_digits` and fraction digits `frac`
/// writes, rounded to what a number holds: fraction digits that do not fit are rounded off
/// to the nearest (a half rounds away from zero), and an integer part beyond `i64::MAX`
/// stays at `i64::MAX`.
pub open spec fn literal_value(negative: bool, int_digits: Seq<u8>, frac: Seq<u8>) -> Number {
    let whole = digits_value(int_digits, 0, int_digits.len() as int);
    if whole > i64::MAX {
        Number::decimal_spec(negative, i64::MAX as nat, 0)
    } else {
        let fit = fit_fraction(frac, whole, 0);
        let up = fit.1 < frac.len() && frac[fit.1 as int] >= DIGIT_ZERO + 5 && fit.0 < i64::MAX;
        Number::decimal_spec(
            negative,
            if up {
                fit.0 + 1
            } else {
                fit.0
            },
            fit.1,
        )
    }
}

/// The number literal at `p`: an optional sign, digits, and optionally `.` and more digits.
pub open spec fn number_token(b: Seq<u8>, p: int) -> Result<Option<(AtomView, int)>, ParseError> {
    let negative = b[p] == MINUS;
    let s = if is_sign(b[p]) {
        p + 1
    } else {
        p
    };
    let e1 = digits_end(b, s);
    let has_fraction = b.len() - e1 > 1 && b[e1] == DOT && is_digit(b[e1 + 1]);
    let f0 = if has_fraction {
        e1 + 1
    } else {
        e1
    };
    let end = digits_end(b, f0);
    Ok(
        Some(
            (
                AtomView::Num(literal_value(negative, b.subrange(s, e1), b.subrange(f0, end))),
                end,
            ),
        ),
    )
}

/// The text between the delimiter at `p` and the next copy of it.
pub open spec fn quoted_token(b: Seq<u8>, p: int) -> Result<Option<(AtomView, int)>, ParseError> {
    let q = find_byte(b, p + 1, b[p]);
    if q >= b.len() {
        Err(ParseError { position: p as usize, reason: ParseReason::UnterminatedString })
    } else {
        let content = b.subrange(p + 1, q);
        if b[p] == QUOTE {
            if valid_utf8(content) {
                Ok(Some((AtomView::Str(decode_utf8(content)), q + 1)))
            } else {
                Err(ParseError { position: p as usize, reason: ParseReason::InvalidText })
            }
        } else if has_high_byte(content) || !valid_utf8(smaz_decompressed(content)) {
            Err(ParseError { position: p as usize, reason: ParseReason::UndecodableLiteral })
        } else {
            Ok(Some((AtomView::Str(decode_utf8(smaz_decompressed(content))), q + 1)))
        }
    }
}

/// The token that starts at the first byte from `pos` on that is not white space, with the
/// index just past it; `None` where only white space is left.
pub open spec fn token_at(b: Seq<u8>, pos: int) -> Result<Option<(AtomView, int)>, ParseError> {
    let p = skip_space(b, pos);
    if p >= b.len() {
        Ok(None)
    } else if starts_number(b, p) {
        number_token(b, p)
    } else if b[p] == HASH {
        if p + 1 < b.len() && b[p + 1] == LOWER_T {
            Ok(Some((AtomView::Num(Number::from_int_spec(1)), p + 2)))
        } else if p + 1 < b.len() && b[p + 1] == LOWER_F {
            Ok(Some((AtomView::Num(Number::from_int_spec(0)), p + 2)))
        } else {
            Err(ParseError { position: p as usize, reason: ParseReason::UnexpectedByte })
        }
    } else if b[p] == BACKTICK || b[p] == QUOTE {
        quoted_token(b, p)
    } else if operator_of(b[p]) is Some {
        Ok(Some((AtomView::BuiltIn(operator_of(b[p])->Some_0), p + 1)))
    } else if has_word(b, p, LOWER_C, LOWER_M, LOWER_P) {
        Ok(Some((AtomView::BuiltIn(BuiltIn::Cmp), p + 3)))
    } else if has_word(b, p, LOWER_D, LOWER_M, LOWER_P) {
        Ok(Some((AtomView::BuiltIn(BuiltIn::Dcmp), p + 3)))
    } else if is_letter(b[p]) {
        let e = letters_end(b, p);
        let v = roman_value(b.subrange(p, e));
        if v <= i64::MAX {
            Ok(Some((AtomView::Num(Number::from_int_spec(v as int)), e)))
        } else {
            Err(ParseError { position: p as usize, reason: ParseReason::NumberTooLarge })
        }
    } else {
        Err(ParseError { position: p as usize, reason: ParseReason::UnexpectedByte })
    }
}

/// The tokens of `b[pos..]`, in order, or the first error.
pub open spec fn tokens_from(b: Seq<u8>, pos: int) -> Result<Seq<AtomView>, ParseError>
    decreases b.len() - pos,
{
    if pos < 0 || pos > b.len() {
        Ok(Seq::empty())
    } else {
        match token_at(b, pos) {
            Err(e) => Err(e),
            Ok(None) => Ok(Seq::empty()),
            Ok(Some((a, next))) => if pos < next <= b.len() {
                match tokens_from(b, next) {
                    Ok(rest) => Ok(seq![a] + rest),
                    Err(e) => Err(e),
                }
            } else {
                Ok(Seq::empty())
            },
        }
    }
}

/// The tokens of the source text.
pub open spec fn tokenize_spec(src: Seq<char>) -> Result<Seq<AtomView>, ParseError> {
    tokens_from(encode_utf8(src), 0)
}

/// Mantissas above this are all alike: too large.
const MANTISSA_CAP: u128 = 0x8000_0000_0000_0000;

fn skip_space_exec(b: &[u8], i: usize) -> (r: usize)
    requires
        i <= b@.len(),
    ensures
        r == skip_space(b@, i as int),
        i <= r <= b@.len(),
{
    let mut j = i;
    while j < b.len() && (b[j] == SPACE || b[j] == TAB || b[j] == NEWLINE || b[j] == RETURN)
        invariant
            i <= j <= b@.len(),
            skip_space(b@, j as int) == skip_space(b@, i as int),
        decreases b@.len() - j,
    {
        j = j + 1;
    }
    j
}

fn digits_end_exec(b: &[u8], i: usize) -> (r: usize)
    requires
        i <= b@.len(),
    ensures
        r == digits_end(b@, i as int),
        i <= r <= b@.len(),
        i < b@.len() && is_digit(b@[i as int]) ==> r > i,
        forall|k: int| i <= k < r ==> is_digit(#[trigger] b@[k]),
{
    let mut j = i;
    while j < b.len() && DIGIT_ZERO <= b[j] && b[j] <= DIGIT_NINE
        invariant
            i <= j <= b@.len(),
            digits_end(b@, j as int) == digits_end(b@, i as int),
            forall|k: int| i <= k < j ==> is_digit(#[trigger] b@[k]),
        decreases b@.len() - j,
    {
        j = j + 1;
    }
    j
}

fn letters_end_exec(b: &[u8], i: usize) -> (r: usize)
    requires
        i <= b@.len(),
    ensures
        r == letters_end(b@, i as int),
        i <= r <= b@.len(),
        i < b@.len() && is_letter(b@[i as int]) ==> r > i,
{
    let mut j = i;
    while j < b.len() && ((LOWER_A <= b[j] && b[j] <= LOWER_Z) || (UPPER_A <= b[j] && b[j]
        <= UPPER_Z))
        invariant
            i <= j <= b@.len(),
            letters_end(b@, j as int) == letters_end(b@, i as int),
        decreases b@.len() - j,
    {
        j = j + 1;
    }
    j
}

fn find_byte_exec(b: &[u8], i: usize, c: u8) -> (r: usize)
    requires
        i <= b@.len(),
    ensures
        r == find_byte(b@, i as int, c),
        i <= r <= b@.len(),
{
    let mut j = i;
    while j < b.len() && b[j] != c
        invariant
            i <= j <= b@.len(),
            find_byte(b@, j as int, c) == find_byte(b@, i as int, c),
        decreases b@.len() - j,
    {
        j = j + 1;
    }
    j
}

spec fn capped(x: int) -> int {
    if x < MANTISSA_CAP {
        x
    } else {
        MANTISSA_CAP as int
    }
}

/// `start` followed by the digits `b[i..j]`, capped at `MANTISSA_CAP`.
fn read_digits(b: &[u8], i: usize, j: usize, start: u128) -> (r: u128)
    requires
        i <= j <= b@.len(),
        start <= MANTISSA_CAP,
        forall|k: int| i <= k < j ==> is_digit(#[trigger] b@[k]),
    ensures
        r == capped(start * power(10, (j - i) as nat) + digits_value(b@, i as int, j as int)),
{
    let mut v = start;
    let mut k = i;
    while k < j
        invariant
            i <= k <= j <= b@.len(),
            start <= MANTISSA_CAP,
            forall|t: int| i <= t < j ==> is_digit(#[trigger] b@[t]),
            v == capped(start * power(10, (k - i) as nat) + digits_value(b@, i as int, k as int)),
            v <= MANTISSA_CAP,
        decreases j - k,
    {
        let d = (b[k] - DIGIT_ZERO) as u128;
        assert(is_digit(b@[k as int]));
        let ghost p = power(10, (k - i) as nat);
        let ghost whole = start * p + digits_value(b@, i as int, k as int);
        proof {
            lemma_power_pos(10, (k - i) as nat);
            assert(power(10, (k + 1 - i) as nat) == 10 * p);
            assert(digits_value(b@, i as int, k + 1) == digits_value(b@, i as int, k as int) * 10
                + d);
            assert(start * (10 * p) + digits_value(b@, i as int, k + 1) == 10 * whole + d)
                by (nonlinear_arith)
                requires
                    digits_value(b@, i as int, k + 1) == digits_value(b@, i as int, k as int) * 10
                        + d,
                    whole == start * p + digits_value(b@, i as int, k as int),
            ;
            assert(whole >= 0) by (nonlinear_arith)
                requires
                    p >= 0,
                    whole == start * p + digits_value(b@, i as int, k as int),
            ;
        }
        let next = v * 10 + d;
        v = if next < MANTISSA_CAP {
            next
        } else {
            MANTISSA_CAP
        };
        k = k + 1;
    }
    v
}

/// Whether an executable token result stands for the specified one.
pub open spec fn same_token(
    r: Result<Option<(Atom, usize)>, ParseError>,
    s: Result<Option<(AtomView, int)>, ParseError>,
) -> bool {
    match (r, s) {
        (Ok(None), Ok(None)) => true,
        (Ok(Some((a, n))), Ok(Some((v, m)))) => a@ == v && n == m,
        (Err(e), Err(f)) => e == f,
        _ => false,
    }
}

fn number_exec(b: &[u8], p: usize) -> (r: Result<Option<(Atom, usize)>, ParseError>)
    requires
        p < b@.len(),
        starts_number(b@, p as int),
    ensures
        same_token(r, number_token(b@, p as int)),
        r matches Ok(Some((_, n))) ==> p < n <= b@.len(),
{
    let negative = b[p] == MINUS;
    let s = if negative || b[p] == PLUS {
        p + 1
    } else {
        p
    };
    let e1 = digits_end_exec(b, s);
    let has_fraction = b.len() - e1 > 1 && b[e1] == DOT && DIGIT_ZERO <= b[e1 + 1] && b[e1 + 1]
        <= DIGIT_NINE;
    let f0 = if has_fraction {
        e1 + 1
    } else {
        e1
    };
    let end = digits_end_exec(b, f0);
    let ghost int_digits = b@.subrange(s as int, e1 as int);
    let ghost frac = b@.subrange(f0 as int, end as int);
    let w = read_digits(b, s, e1, 0);
    proof {
        lemma_digits_value_same(b@, s as int, e1 as int, int_digits, 0);
        assert(0 * power(10, (e1 - s) as nat) == 0);
    }
    if w > i64::MAX as u128 {
        return Ok(Some((Atom::Num(Number::from_decimal(negative, i64::MAX as u64, 0)), end)));
    }
    let mut m: u64 = w as u64;
    let mut j: usize = 0;
    while f0 + j < end && j < MAX_SCALE as usize && (m as u128) * 10 + ((b[f0 + j] - DIGIT_ZERO)
        as u128) <= i64::MAX as u128
        invariant
            f0 <= f0 + j <= end <= b@.len(),
            j <= MAX_SCALE,
            m <= i64::MAX,
            frac == b@.subrange(f0 as int, end as int),
            forall|k: int| f0 <= k < end ==> is_digit(#[trigger] b@[k]),
            fit_fraction(frac, w as nat, 0) == fit_fraction(frac, m as nat, j as nat),
        decreases end - f0 - j,
    {
        assert(frac[j as int] == b@[f0 + j]);
        m = m * 10 + (b[f0 + j] - DIGIT_ZERO) as u64;
        j = j + 1;
    }
    proof {
        if f0 + j < end {
            assert(frac[j as int] == b@[f0 + j]);
        }
    }
    let up = f0 + j < end && b[f0 + j] >= DIGIT_ZERO + 5 && m < i64::MAX as u64;
    let mantissa = if up {
        m + 1
    } else {
        m
    };
    Ok(Some((Atom::Num(Number::from_decimal(negative, mantissa, j as u32)), end)))
}

fn quoted_exec(b: &[u8], p: usize) -> (r: Result<Option<(Atom, usize)>, ParseError>)
    requires
        p < b@.len(),
        b@[p as int] == QUOTE || b@[p as int] == BACKTICK,
    ensures
        same_token(r, quoted_token(b@, p as int)),
        r matches Ok(Some((_, n))) ==> p < n <= b@.len(),
{
    let n = b.len();
    assert(p + 1 <= n);
    let q = find_byte_exec(b, p + 1, b[p]);
    if q >= b.len() {
        return Err(ParseError { position: p, reason: ParseReason::UnterminatedString });
    }
    let content = byte_range(b, p + 1, q);
    if b[p] == QUOTE {
        match string_from_utf8(content) {
            Some(t) => Ok(Some((Atom::Str(t), q + 1))),
            None => Err(ParseError { position: p, reason: ParseReason::InvalidText }),
        }
    } else {
        let undecodable = ParseError { position: p, reason: ParseReason::UndecodableLiteral };
        if find_high_byte(content.as_slice()) {
            return Err(undecodable);
        }
        match decompress_bytes(content.as_slice()) {
            Some(d) => match string_from_utf8(d) {
                Some(t) => Ok(Some((Atom::Str(t), q + 1))),
                None => Err(undecodable),
            },
            None => Err(undecodable),
        }
    }
}

fn operator_exec(c: u8) -> (r: Option<BuiltIn>)
    ensures
        r == operator_of(c),
{
    if c == UPPER_R {
        Some(BuiltIn::Root)
    } else if c == PLUS {
        Some(BuiltIn::Plus)
    } else if c == MINUS {
        Some(BuiltIn::Minus)
    } else if c == STAR {
        Some(BuiltIn::Times)
    } else if c == SLASH {
        Some(BuiltIn::Divide)
    } else if c == EQUALS {
        Some(BuiltIn::Equal)
    } else if c == BANG {
        Some(BuiltIn::Factorial)
    } else if c == CARET {
        Some(BuiltIn::Power)
    } else if c == PERCENT {
        Some(BuiltIn::Modulus)
    } else if c == LOWER_N {
        Some(BuiltIn::Not)
    } else if c == COMMA {
        Some(BuiltIn::PrintLn)
    } else if c == DOT {
        Some(BuiltIn::Print)
    } else {
        None
    }
}

fn word_exec(b: &[u8], p: usize, x: u8, y: u8, z: u8) -> (r: bool)
    requires
        p <= b@.len(),
    ensures
        r == has_word(b@, p as int, x, y, z),
{
    b.len() - p >= 3 && b[p] == x && b[p + 1] == y && b[p + 2] == z
}

/// The token that starts at the first byte from `pos` on that is not white space, with the
/// index just past it; `None` where only white space is left.
pub fn next_token(b: &[u8], pos: usize) -> (r: Result<Option<(Atom, usize)>, ParseError>)
    requires
        pos <= b@.len(),
    ensures
        same_token(r, token_at(b@, pos as int)),
        r matches Ok(Some((_, n))) ==> pos < n <= b@.len(),
{
    let p = skip_space_exec(b, pos);
    if p >= b.len() {
        return Ok(None);
    }
    let c = b[p];
    let digit_at = |i: usize| -> (d: bool)
        requires
            i <= b@.len(),
        ensures
            d == (i < b@.len() && is_digit(b@[i as int])),
        { i < b.len() && DIGIT_ZERO <= b[i] && b[i] <= DIGIT_NINE };
    if digit_at(p) || ((c == MINUS || c == PLUS) && digit_at(p + 1)) {
        return number_exec(b, p);
    }
    if c == HASH {
        if p + 1 < b.len() && b[p + 1] == LOWER_T {
            return Ok(Some((Atom::Num(Number::from_int(1)), p + 2)));
        } else if p + 1 < b.len() && b[p + 1] == LOWER_F {
            return Ok(Some((Atom::Num(Number::from_int(0)), p + 2)));
        } else {
            return Err(ParseError { position: p, reason: ParseReason::UnexpectedByte });
        }
    }
    if c == BACKTICK || c == QUOTE {
        return quoted_exec(b, p);
    }
    if let Some(op) = operator_exec(c) {
        return Ok(Some((Atom::BuiltIn(op), p + 1)));
    }
    if word_exec(b, p, LOWER_C, LOWER_M, LOWER_P) {
        return Ok(Some((Atom::BuiltIn(BuiltIn::Cmp), p + 3)));
    }
    if word_exec(b, p, LOWER_D, LOWER_M, LOWER_P) {
        return Ok(Some((Atom::BuiltIn(BuiltIn::Dcmp), p + 3)));
    }
    if (LOWER_A <= c && c <= LOWER_Z) || (UPPER_A <= c && c <= UPPER_Z) {
        let e = letters_end_exec(b, p);
        let v = numeral_value(b, p, e);
        if v > i64::MAX as u128 {
            return Err(ParseError { position: p, reason: ParseReason::NumberTooLarge });
        }
        return Ok(Some((Atom::Num(Number::from_i64(v as i64)), e)));
    }
    Err(ParseError { position: p, reason: ParseReason::UnexpectedByte })
}

pub open spec fn prepend(s: Seq<AtomView>, r: Result<Seq<AtomView>, ParseError>) -> Result<
    Seq<AtomView>,
    ParseError,
> {
    match r {
        Ok(t) => Ok(s + t),
        Err(e) => Err(e),
    }
}

/// Splits the source text into its tokens, in order; the first malformed token stops it.
pub fn tokenize(src: &str) -> (r: Result<Vec<Atom>, ParseError>)
    ensures
        match tokenize_spec(src@) {
            Ok(s) => r is Ok && views(r->Ok_0@) == s,
            Err(e) => r == Err::<Vec<Atom>, ParseError>(e),
        },
{
    let b = src.as_bytes();
    let mut out: Vec<Atom> = Vec::new();
    let mut pos: usize = 0;
    assert(prepend(views(out@), tokens_from(b@, 0)) == tokens_from(b@, 0)) by {
        match tokens_from(b@, 0) {
            Ok(t) => {
                assert(views(out@) + t =~= t);
            },
            Err(_) => {},
        }
    }
    loop
        invariant
            pos <= b@.len(),
            b@ == encode_utf8(src@),
            tokens_from(b@, 0) == prepend(views(out@), tokens_from(b@, pos as int)),
        decreases b@.len() - pos,
    {
        match next_token(b, pos) {
            Err(e) => {
                return Err(e);
            },
            Ok(None) => {
                proof {
                    assert(views(out@) + Seq::<AtomView>::empty() =~= views(out@));
                }
                return Ok(out);
            },
            Ok(Some((a, next))) => {
                let ghost before = views(out@);
                let ghost av = a@;
                out.push(a);
                proof {
                    assert(views(out@) =~= before.push(av));
                    match tokens_from(b@, next as int) {
                        Ok(t) => {
                            assert(before + (seq![av] + t) =~= views(out@) + t);
                        },
                        Err(_) => {},
                    }
                }
                pos = next;
            },
        }
    }
}

pub open spec fn all_digits(d: Seq<u8>) -> bool {
    forall|i: int| 0 <= i < d.len() ==> is_digit(#[trigger] d[i])
}

/// The text of a number literal: an optional `-`, the digits of the integer part, and,
/// where there are any, `.` and the digits of the fraction.
pub open spec fn literal_bytes(negative: bool, int_digits: Seq<u8>, frac_digits: Seq<u8>) -> Seq<
    u8,
> {
    let sign = if negative {
        seq![MINUS]
    } else {
        Seq::empty()
    };
    let fraction = if frac_digits.len() > 0 {
        seq![DOT] + frac_digits
    } else {
        Seq::empty()
    };
    sign + int_digits + fraction
}

proof fn lemma_digits_end_at(b: Seq<u8>, i: int, k: int)
    requires
        0 <= i <= k <= b.len(),
        forall|t: int| i <= t < k ==> is_digit(#[trigger] b[t]),
        k == b.len() || !is_digit(b[k]),
    ensures
        digits_end(b, i) == k,
    decreases k - i,
{
    if i < k {
        lemma_digits_end_at(b, i + 1, k);
    }
}

/// The value of digits depends on those digits alone.
proof fn lemma_digits_value_same(b: Seq<u8>, i: int, j: int, c: Seq<u8>, k: int)
    requires
        0 <= i <= j <= b.len(),
        0 <= k,
        k + (j - i) <= c.len(),
        forall|t: int| 0 <= t < j - i ==> #[trigger] b[i + t] == c[k + t],
    ensures
        digits_value(b, i, j) == digits_value(c, k, k + (j - i)),
    decreases j - i,
{
    if i < j {
        lemma_digits_value_same(b, i, j - 1, c, k);
        assert(b[i + (j - 1 - i)] == c[k + (j - 1 - i)]);
    }
}

/// Writing the digits `y` after the digits `x` multiplies the value of `x` by a power of ten.
proof fn lemma_digits_value_concat(x: Seq<u8>, y: Seq<u8>)
    ensures
        digits_value(x + y, 0, (x + y).len() as int) == digits_value(x, 0, x.len() as int)
            * power(10, y.len()) + digits_value(y, 0, y.len() as int),
    decreases y.len(),
{
    let xy = x + y;
    if y.len() == 0 {
        assert(xy =~= x);
    } else {
        let y1 = y.drop_last();
        lemma_digits_value_concat(x, y1);
        lemma_digits_value_same(xy, 0, xy.len() - 1, x + y1, 0);
        lemma_digits_value_same(y, 0, y.len() - 1, y1, 0);
        let dx = digits_value(x, 0, x.len() as int);
        let dy1 = digits_value(y1, 0, y1.len() as int);
        let p = power(10, y1.len());
        let c = (y.last() - DIGIT_ZERO) as nat;
        assert(xy[xy.len() - 1] == y.last());
        assert(power(10, y.len()) == 10 * p);
        assert((dx * p + dy1) * 10 + c == dx * (10 * p) + (dy1 * 10 + c)) by (nonlinear_arith);
    }
}

/// A number literal on its own tokenizes to one number: the value it writes, rounded to what
/// a number holds.
pub proof fn lemma_number_literal(negative: bool, int_digits: Seq<u8>, frac_digits: Seq<u8>)
    requires
        int_digits.len() > 0,
        all_digits(int_digits),
        all_digits(frac_digits),
    ensures
        tokens_from(literal_bytes(negative, int_digits, frac_digits), 0) == Ok::<
            Seq<AtomView>,
            ParseError,
        >(seq![AtomView::Num(literal_value(negative, int_digits, frac_digits))]),
{
    let b = literal_bytes(negative, int_digits, frac_digits);
    let s: int = if negative {
        1
    } else {
        0
    };
    let e1 = s + int_digits.len();
    let n = b.len() as int;
    assert(forall|t: int| 0 <= t < int_digits.len() ==> #[trigger] b[s + t] == int_digits[t]);
    assert(forall|t: int| 0 <= t < frac_digits.len() ==> #[trigger] b[e1 + 1 + t] == frac_digits[t]);
    assert(forall|t: int| s <= t < e1 ==> is_digit(#[trigger] b[t])) by {
        assert forall|t: int| s <= t < e1 implies is_digit(#[trigger] b[t]) by {
            assert(b[s + (t - s)] == int_digits[t - s]);
        }
    }
    lemma_digits_end_at(b, s, e1);
    assert(b.subrange(s, e1) =~= int_digits);
    assert(!is_space(b[0]));
    assert(skip_space(b, 0) == 0);
    assert(starts_number(b, 0));
    if frac_digits.len() > 0 {
        assert(b[e1] == DOT);
        assert(b[e1 + 1] == frac_digits[0]);
        assert(forall|t: int| e1 + 1 <= t < n ==> is_digit(#[trigger] b[t])) by {
            assert forall|t: int| e1 + 1 <= t < n implies is_digit(#[trigger] b[t]) by {
                assert(b[e1 + 1 + (t - e1 - 1)] == frac_digits[t - e1 - 1]);
            }
        }
        lemma_digits_end_at(b, e1 + 1, n);
        assert(b.subrange(e1 + 1, n) =~= frac_digits);
    } else {
        assert(n == e1);
        lemma_digits_end_at(b, e1, n);
        assert(b.subrange(e1, n) =~= frac_digits);
    }
    assert(skip_space(b, n) == n);
    assert(tokens_from(b, n) == Ok::<Seq<AtomView>, ParseError>(Seq::empty()));
    let a = AtomView::Num(literal_value(negative, int_digits, frac_digits));
    assert(token_at(b, 0) == Ok::<Option<(AtomView, int)>, ParseError>(Some((a, n))));
    assert(seq![a] + Seq::<AtomView>::empty() =~= seq![a]);
}

/// The digits of a prefix of a digit string are worth no more than the whole string.
proof fn lemma_digits_value_prefix(x: Seq<u8>, k: int)
    requires
        0 <= k <= x.len(),
    ensures
        digits_value(x.subrange(0, k), 0, k) <= digits_value(x, 0, x.len() as int),
{
    let y = x.subrange(k, x.len() as int);
    assert(x.subrange(0, k) + y =~= x);
    lemma_digits_value_concat(x.subrange(0, k), y);
    lemma_power_pos(10, y.len());
    let d = digits_value(x.subrange(0, k), 0, k);
    let p = power(10, y.len());
    assert(d <= d * p) by (nonlinear_arith)
        requires
            p >= 1,
    ;
}

/// Taking fraction digits onto a mantissa that together fit takes them all.
proof fn lemma_fit_fraction_all(int_digits: Seq<u8>, frac: Seq<u8>, j: nat)
    requires
        j <= frac.len() <= MAX_SCALE,
        digits_value(int_digits + frac, 0, (int_digits + frac).len() as int) <= i64::MAX,
    ensures
        fit_fraction(
            frac,
            digits_value(int_digits + frac.subrange(0, j as int), 0, (int_digits.len() + j) as int),
            j,
        ) == (digits_value(int_digits + frac, 0, (int_digits + frac).len() as int), frac.len()),
    decreases frac.len() - j,
{
    let x = int_digits + frac;
    let m = digits_value(int_digits + frac.subrange(0, j as int), 0, (int_digits.len() + j) as int);
    if j == frac.len() {
        assert(int_digits + frac.subrange(0, j as int) =~= x);
    } else {
        let k: int = (int_digits.len() + j + 1) as int;
        let next = int_digits + frac.subrange(0, (j + 1) as int);
        assert(next.subrange(0, k - 1) =~= int_digits + frac.subrange(0, j as int));
        lemma_digits_value_same(next, 0, k - 1, int_digits + frac.subrange(0, j as int), 0);
        assert(next[k - 1] == frac[j as int]);
        assert(digits_value(next, 0, k) == m * 10 + digit_value(frac[j as int]));
        assert(x.subrange(0, k) =~= next);
        lemma_digits_value_prefix(x, k);
        lemma_fit_fraction_all(int_digits, frac, j + 1);
    }
}

/// A literal whose digits fit a number, with at most `MAX_SCALE` of them after the point,
/// reads as exactly the number it writes.
pub proof fn lemma_literal_exact(negative: bool, int_digits: Seq<u8>, frac_digits: Seq<u8>)
    requires
        digits_value(int_digits + frac_digits, 0, (int_digits + frac_digits).len() as int)
            <= i64::MAX,
        frac_digits.len() <= MAX_SCALE,
    ensures
        literal_value(negative, int_digits, frac_digits) == Number::decimal_spec(
            negative,
            digits_value(int_digits + frac_digits, 0, (int_digits + frac_digits).len() as int),
            frac_digits.len(),
        ),
{
    let x = int_digits + frac_digits;
    assert(x.subrange(0, int_digits.len() as int) =~= int_digits);
    lemma_digits_value_prefix(x, int_digits.len() as int);
    assert(int_digits + frac_digits.subrange(0, 0) =~= int_digits);
    lemma_fit_fraction_all(int_digits, frac_digits, 0);
}

/// Digits without a leading zero, or the single digit 0.
pub open spec fn canonical_digits(d: Seq<u8>) -> bool {
    d.len() > 0 && all_digits(d) && (d.len() == 1 || d[0] != DIGIT_ZERO)
}

pub open spec fn as_text(b: Seq<u8>) -> Seq<char> {
    b.map_values(|c: u8| c as char)
}

/// The decimal digits of the value of canonical digits are those digits.
proof fn lemma_decimal_digits_inverse(d: Seq<u8>)
    requires
        canonical_digits(d),
    ensures
        decimal_digits(digits_value(d, 0, d.len() as int)) == as_text(d),
    decreases d.len(),
{
    let n = d.len() as int;
    let v = digits_value(d, 0, n);
    if n == 1 {
        assert(digits_value(d, 0, 0) == 0);
        assert(v == d[0] - DIGIT_ZERO);
        assert(digit_char(v) == d[0] as char);
        assert(decimal_digits(v) =~= as_text(d));
    } else {
        let d1 = d.drop_last();
        lemma_digits_value_same(d, 0, n - 1, d1, 0);
        let v1 = digits_value(d1, 0, n - 1);
        assert(d1[0] == d[0]);
        let e = d1.subrange(0, 1);
        assert(e[0] == d1[0]);
        assert(digits_value(e, 0, 0) == 0);
        assert(digits_value(e, 0, 1) == d1[0] - DIGIT_ZERO);
        lemma_digits_value_prefix(d1, 1);
        assert(v1 >= 1);
        let c = (d.last() - DIGIT_ZERO) as nat;
        assert(v == v1 * 10 + c);
        assert(v / 10 == v1 && v % 10 == c);
        lemma_decimal_digits_inverse(d1);
        assert(digit_char(c) == d.last() as char);
        assert(decimal_digits(v) =~= as_text(d));
    }
}

/// An integer literal written without leading zeros tokenizes to one number, and that
/// number renders back to the literal's own text.
pub proof fn lemma_integer_literal_text(negative: bool, d: Seq<u8>)
    requires
        canonical_digits(d),
        digits_value(d, 0, d.len() as int) <= i64::MAX,
        negative ==> digits_value(d, 0, d.len() as int) > 0,
    ensures
        tokens_from(literal_bytes(negative, d, Seq::empty()), 0) matches Ok(toks) && toks.len()
            == 1 && toks[0].text() == as_text(literal_bytes(negative, d, Seq::empty())),
{
    let empty = Seq::<u8>::empty();
    let v = digits_value(d, 0, d.len() as int);
    lemma_number_literal(negative, d, empty);
    assert(d + empty =~= d);
    lemma_literal_exact(negative, d, empty);
    assert(power(10, 0) == 1);
    let x = with_sign(negative, v as int);
    assert(abs(x) == v);
    lemma_integer_text(x);
    lemma_decimal_digits_inverse(d);
    let lit = literal_bytes(negative, d, empty);
    assert(Number::decimal_spec(negative, v, 0) == Number::from_int_spec(x));
    assert(MINUS as char == '-');
    assert(as_text(lit) =~= (if x < 0 {
        seq!['-']
    } else {
        Seq::<char>::empty()
    }) + decimal_digits(abs(x)));
}

} // verus!
