use vstd::prelude::*;
use crate::token::ReserveCode;

verus! {

/// What one scan produces, over bytes: the model of a token.
pub enum Lexeme {
    Reserve(ReserveCode),
    Number(int),
    /// The literal's exact bytes.
    Float(Seq<u8>),
    Boolean(bool),
    /// The bytes strictly between the quotes, escapes kept verbatim.
    Str(Seq<u8>),
    Null,
    Undefined,
}

/// ASCII whitespace as `u8::is_ascii_whitespace` defines it.
pub open spec fn is_ws(b: u8) -> bool {
    b == 0x20 || b == 0x09 || b == 0x0a || b == 0x0c || b == 0x0d
}

pub open spec fn is_digit(b: u8) -> bool {
    0x30 <= b <= 0x39
}

/// The first position at or after `i` that is not whitespace.
pub open spec fn ws_end(t: Seq<u8>, i: int) -> int
    decreases t.len() - i,
{
    if 0 <= i < t.len() && is_ws(t[i]) {
        ws_end(t, i + 1)
    } else {
        i
    }
}

/// The first position at or after `i` that is not a digit.
pub open spec fn digits_end(t: Seq<u8>, i: int) -> int
    decreases t.len() - i,
{
    if 0 <= i < t.len() && is_digit(t[i]) {
        digits_end(t, i + 1)
    } else {
        i
    }
}

/// The decimal value of a run of digits.
pub open spec fn digits_value(d: Seq<u8>) -> nat
    decreases d.len(),
{
    if d.len() == 0 {
        0
    } else {
        digits_value(d.drop_last()) * 10 + (d.last() - 0x30) as nat
    }
}

pub open spec fn fits_i64(v: int) -> bool {
    i64::MIN <= v <= i64::MAX
}

/// An integer literal `t[k..a)`: an optional `-`, then digits.
pub open spec fn integer_span(t: Seq<u8>, k: int, a: int) -> Lexeme {
    let neg = t[k] == 0x2d;
    let digits = t.subrange(if neg { k + 1 } else { k }, a);
    let v = if neg { -digits_value(digits) } else { digits_value(digits) as int };
    if digits.len() > 0 && fits_i64(v) {
        Lexeme::Number(v)
    } else {
        Lexeme::Undefined
    }
}

/// A float literal `t[k..e)` whose integer part ends at `a` and whose fraction,
/// if any, ends at `b`: it needs a digit before the exponent.
pub open spec fn float_span(t: Seq<u8>, k: int, a: int, b: int, e: int) -> Lexeme {
    if is_digit(t[k]) || a > k + 1 || b > a + 1 {
        Lexeme::Float(t.subrange(k, e))
    } else {
        Lexeme::Undefined
    }
}

pub open spec fn is_exp_mark(b: u8) -> bool {
    b == 0x65 || b == 0x45
}

pub open spec fn is_sign(b: u8) -> bool {
    b == 0x2b || b == 0x2d
}

/// Where the fraction of a number whose integer part ends at `a` ends.
pub open spec fn fraction_end(t: Seq<u8>, a: int) -> int {
    if a < t.len() && t[a] == 0x2e {
        digits_end(t, a + 1)
    } else {
        a
    }
}

/// Where the digits of an exponent whose marker stands at `b` begin.
pub open spec fn exp_digits_start(t: Seq<u8>, b: int) -> int {
    if b + 1 < t.len() && is_sign(t[b + 1]) {
        b + 2
    } else {
        b + 1
    }
}

/// Scans a number at `k`, where `t[k]` is a digit or `-`; returns the token and
/// the position after the scan.
pub open spec fn scan_number(t: Seq<u8>, k: int) -> (Lexeme, int) {
    let a = digits_end(t, k + 1);
    let b = fraction_end(t, a);
    if b < t.len() && is_exp_mark(t[b]) {
        let j = exp_digits_start(t, b);
        if j < t.len() && is_digit(t[j]) {
            let e = digits_end(t, j);
            (float_span(t, k, a, b, e), e)
        } else {
            (Lexeme::Undefined, j)
        }
    } else if b > a {
        (float_span(t, k, a, b, b), b)
    } else {
        (integer_span(t, k, a), a)
    }
}

/// Looks for the byte `q` that closes a string, from `i` on: `Ok` holds its
/// position, `Err` the position where the scan gave up (a newline, or the end).
/// A backslash makes the byte after it pass unexamined.
pub open spec fn string_close(t: Seq<u8>, q: u8, i: int) -> Result<int, int>
    decreases t.len() - i,
{
    if i < 0 || i >= t.len() {
        Err(t.len() as int)
    } else if t[i] == q {
        Ok(i)
    } else if t[i] == 0x0a {
        Err(i)
    } else if t[i] == 0x5c {
        if i + 2 <= t.len() {
            string_close(t, q, i + 2)
        } else {
            Err(t.len() as int)
        }
    } else {
        string_close(t, q, i + 1)
    }
}

/// Scans a string whose opening quote stands at `k`.
pub open spec fn scan_string(t: Seq<u8>, k: int) -> (Lexeme, int) {
    match string_close(t, t[k], k + 1) {
        Ok(c) => (Lexeme::Str(t.subrange(k + 1, c)), c + 1),
        Err(e) => (Lexeme::Undefined, e),
    }
}

pub open spec fn word_true() -> Seq<u8> {
    seq![0x74u8, 0x72, 0x75, 0x65]
}

pub open spec fn word_false() -> Seq<u8> {
    seq![0x66u8, 0x61, 0x6c, 0x73, 0x65]
}

pub open spec fn word_null() -> Seq<u8> {
    seq![0x6eu8, 0x75, 0x6c, 0x6c]
}

/// Whether the bytes at `k` spell `w`.
pub open spec fn word_at(t: Seq<u8>, k: int, w: Seq<u8>) -> bool {
    0 <= k && k + w.len() <= t.len() && t.subrange(k, k + w.len()) == w
}

/// Scans `true`, `false` or `null` at `k`, in that order; `None` where none is spelled.
pub open spec fn scan_keyword(t: Seq<u8>, k: int) -> Option<(Lexeme, int)> {
    if word_at(t, k, word_true()) {
        Some((Lexeme::Boolean(true), k + 4))
    } else if word_at(t, k, word_false()) {
        Some((Lexeme::Boolean(false), k + 5))
    } else if word_at(t, k, word_null()) {
        Some((Lexeme::Null, k + 4))
    } else {
        None
    }
}

/// The structural symbol that a byte stands for, if any.
pub open spec fn symbol_of(b: u8) -> Option<ReserveCode> {
    if b == 0x7b {
        Some(ReserveCode::OpenBrace)
    } else if b == 0x7d {
        Some(ReserveCode::CloseBrace)
    } else if b == 0x5b {
        Some(ReserveCode::OpenBracket)
    } else if b == 0x5d {
        Some(ReserveCode::CloseBracket)
    } else if b == 0x3a {
        Some(ReserveCode::Colon)
    } else if b == 0x2c {
        Some(ReserveCode::Comma)
    } else {
        None
    }
}

/// Scans one structural symbol at `k`: one byte is consumed either way.
pub open spec fn scan_symbol(t: Seq<u8>, k: int) -> (Lexeme, int) {
    match symbol_of(t[k]) {
        Some(c) => (Lexeme::Reserve(c), k + 1),
        None => (Lexeme::Undefined, k + 1),
    }
}

/// Scans the token that starts at `k`, the first byte after whitespace.
pub open spec fn scan_at(t: Seq<u8>, k: int) -> (Lexeme, int) {
    if is_digit(t[k]) || t[k] == 0x2d {
        scan_number(t, k)
    } else if t[k] == 0x22 {
        scan_string(t, k)
    } else if scan_keyword(t, k) is Some {
        scan_keyword(t, k)->Some_0
    } else {
        scan_symbol(t, k)
    }
}

/// One call of the lexer on text `t` with the cursor at `p`: the token it
/// produces and where it leaves the cursor. `Undefined` marks both the end of
/// the input and a malformed token.
pub open spec fn lex(t: Seq<u8>, p: int) -> (Lexeme, int) {
    let k = ws_end(t, p);
    if k >= t.len() {
        (Lexeme::Undefined, k)
    } else {
        scan_at(t, k)
    }
}

/// The first `n` tokens produced from cursor `p` on.
pub open spec fn lex_run(t: Seq<u8>, p: int, n: nat) -> Seq<Lexeme>
    decreases n,
{
    if n == 0 {
        Seq::empty()
    } else {
        let (l, q) = lex(t, p);
        seq![l] + lex_run(t, q, (n - 1) as nat)
    }
}

} // verus!
