//! What holds of every run of the lexer, stated over the model in
//! [`crate::grammar`] and proved.
use vstd::prelude::*;
use crate::grammar::{
    digits_end, digits_value, exp_digits_start, fraction_end, is_digit, is_exp_mark, is_sign, is_ws,
    lex, lex_run, scan_at, string_close, symbol_of, word_at, word_false, word_null, word_true,
    ws_end, Lexeme,
};
use crate::lexer::JsonLexer;

verus! {

/// Bodies of string literals: no bare closing quote and no bare newline; a
/// backslash and the byte after it stand together.
pub open spec fn is_string_body(b: Seq<u8>) -> bool
    decreases b.len(),
{
    if b.len() == 0 {
        true
    } else if b[0] == 0x5c {
        b.len() >= 2 && is_string_body(b.skip(2))
    } else {
        b[0] != 0x22 && b[0] != 0x0a && is_string_body(b.skip(1))
    }
}

pub open spec fn all_digits(d: Seq<u8>) -> bool {
    forall|i: int| 0 <= i < d.len() ==> is_digit(#[trigger] d[i])
}

pub open spec fn all_ws(w: Seq<u8>) -> bool {
    forall|i: int| 0 <= i < w.len() ==> is_ws(#[trigger] w[i])
}

/// The optional minus sign of a number.
pub open spec fn sign_part(neg: bool) -> Seq<u8> {
    if neg {
        seq![0x2du8]
    } else {
        Seq::empty()
    }
}

/// A fraction part: empty, or `.` and at least one digit.
pub open spec fn is_fraction(f: Seq<u8>) -> bool {
    f.len() == 0 || (f.len() >= 2 && f[0] == 0x2e && all_digits(f.skip(1)))
}

/// An exponent part: empty, or `e`/`E`, an optional sign and at least one digit.
pub open spec fn is_exponent(x: Seq<u8>) -> bool {
    x.len() == 0 || (x.len() >= 2 && is_exp_mark(x[0]) && if is_sign(x[1]) {
        x.len() >= 3 && all_digits(x.skip(2))
    } else {
        all_digits(x.skip(1))
    })
}

proof fn lemma_ws_end_bounds(t: Seq<u8>, i: int)
    requires
        0 <= i <= t.len(),
    ensures
        i <= ws_end(t, i) <= t.len(),
    decreases t.len() - i,
{
    if i < t.len() && is_ws(t[i]) {
        lemma_ws_end_bounds(t, i + 1);
    }
}

proof fn lemma_ws_end_skip(t: Seq<u8>, i: int, j: int)
    requires
        0 <= i <= j <= t.len(),
        forall|m: int| i <= m < j ==> is_ws(#[trigger] t[m]),
    ensures
        ws_end(t, i) == ws_end(t, j),
    decreases j - i,
{
    if i < j {
        lemma_ws_end_skip(t, i + 1, j);
    }
}

proof fn lemma_digits_end_at(t: Seq<u8>, i: int, j: int)
    requires
        0 <= i <= j <= t.len(),
        forall|m: int| i <= m < j ==> is_digit(#[trigger] t[m]),
        j == t.len() || !is_digit(t[j]),
    ensures
        digits_end(t, i) == j,
    decreases j - i,
{
    if i < j {
        lemma_digits_end_at(t, i + 1, j);
    }
}

/// Past a string body that starts at `i`, the search for the closing quote
/// goes on as if it had started after the body.
proof fn lemma_string_close_body(t: Seq<u8>, i: int, b: Seq<u8>)
    requires
        0 <= i,
        i + b.len() <= t.len(),
        t.subrange(i, i + b.len()) == b,
        is_string_body(b),
    ensures
        string_close(t, 0x22, i) == string_close(t, 0x22, i + b.len()),
    decreases b.len(),
{
    if b.len() > 0 {
        assert(t[i] == b[0]);
        if b[0] == 0x5c {
            assert(t.subrange(i + 2, i + b.len()) =~= b.skip(2));
            lemma_string_close_body(t, i + 2, b.skip(2));
        } else {
            assert(t.subrange(i + 1, i + b.len()) =~= b.skip(1));
            lemma_string_close_body(t, i + 1, b.skip(1));
        }
    }
}

/// At the end of the input every call yields `Undefined` and leaves the cursor
/// at the end: scanning on from there yields `Undefined` every time.
pub proof fn lemma_end_of_input_is_stable(t: Seq<u8>, p: int, n: nat)
    requires
        0 <= p <= t.len(),
        ws_end(t, p) >= t.len(),
    ensures
        lex(t, p) == (Lexeme::Undefined, t.len() as int),
        lex(t, t.len() as int) == (Lexeme::Undefined, t.len() as int),
        lex_run(t, p, n) == Seq::new(n, |i: int| Lexeme::Undefined),
    decreases n,
{
    lemma_ws_end_bounds(t, p);
    if n > 0 {
        lemma_end_of_input_is_stable(t, t.len() as int, (n - 1) as nat);
        assert(lex_run(t, p, n) =~= Seq::new(n, |i: int| Lexeme::Undefined));
    }
}

/// After `reset`, a lexer produces the same tokens, in the same order, as a
/// lexer over the same text that starts from position zero: the tokens depend
/// on the text and the cursor alone.
pub proof fn lemma_reset_replays(fresh: JsonLexer, reset: JsonLexer, n: nat)
    requires
        fresh.cursor() == 0,
        reset.text() == fresh.text(),
        reset.cursor() == 0,
    ensures
        lex_run(reset.text(), reset.cursor(), n) == lex_run(fresh.text(), fresh.cursor(), n),
{
}

/// A byte that starts no token fails the scan, which consumes that byte.
pub proof fn lemma_unrecognized_byte(t: Seq<u8>, p: int)
    requires
        0 <= p < t.len(),
        !is_ws(t[p]),
        !is_digit(t[p]),
        t[p] != 0x2d,
        t[p] != 0x22,
        t[p] != 0x74,
        t[p] != 0x66,
        t[p] != 0x6e,
        symbol_of(t[p]) is None,
    ensures
        lex(t, p) == (Lexeme::Undefined, p + 1),
{
    if word_at(t, p, word_true()) {
        assert(t.subrange(p, p + 4)[0] == t[p]);
    }
    if word_at(t, p, word_false()) {
        assert(t.subrange(p, p + 5)[0] == t[p]);
    }
    if word_at(t, p, word_null()) {
        assert(t.subrange(p, p + 4)[0] == t[p]);
    }
}

/// A quoted string literal yields its body, escapes kept verbatim, and
/// consumes the whole literal.
pub proof fn lemma_string_literal(b: Seq<u8>)
    requires
        is_string_body(b),
    ensures
        lex(seq![0x22u8] + b + seq![0x22u8], 0) == (Lexeme::Str(b), b.len() + 2 as int),
{
    let t = seq![0x22u8] + b + seq![0x22u8];
    assert(t.subrange(1, 1 + b.len() as int) =~= b);
    lemma_string_close_body(t, 1, b);
    assert(t[1 + b.len() as int] == 0x22);
    assert(t.subrange(1, 1 + b.len() as int) =~= b);
}

/// A string with a bare newline before its closing quote fails the scan.
pub proof fn lemma_string_newline_fails(b: Seq<u8>, rest: Seq<u8>)
    requires
        is_string_body(b),
    ensures
        lex(seq![0x22u8] + b + seq![0x0au8] + rest, 0).0 == Lexeme::Undefined,
{
    let t = seq![0x22u8] + b + seq![0x0au8] + rest;
    assert(t.subrange(1, 1 + b.len() as int) =~= b);
    lemma_string_close_body(t, 1, b);
    assert(t[1 + b.len() as int] == 0x0a);
}

/// `true`, `false` and `null` each yield their token and consume exactly their
/// spelling.
pub proof fn lemma_keyword_literals()
    ensures
        lex(word_true(), 0) == (Lexeme::Boolean(true), 4int),
        lex(word_false(), 0) == (Lexeme::Boolean(false), 5int),
        lex(word_null(), 0) == (Lexeme::Null, 4int),
{
    assert(word_true().subrange(0, 4) =~= word_true());
    assert(word_false().subrange(0, 5) =~= word_false());
    assert(word_null().subrange(0, 4) =~= word_null());
    assert(word_false().subrange(0, 4)[0] != word_true()[0]);
    assert(word_null().subrange(0, 4)[0] != word_true()[0]);
    assert(word_null().subrange(0, 4)[0] != word_false()[0]);
    assert(ws_end(word_true(), 0) == 0);
    assert(ws_end(word_false(), 0) == 0);
    assert(ws_end(word_null(), 0) == 0);
}

/// An integer literal, an optional minus and digits, whose value fits in
/// `i64`, yields that value and consumes the whole literal.
pub proof fn lemma_integer_literal(neg: bool, d: Seq<u8>)
    requires
        d.len() > 0,
        all_digits(d),
        -0x8000_0000_0000_0000 <= (if neg { -digits_value(d) } else { digits_value(d) as int }),
        (if neg { -digits_value(d) } else { digits_value(d) as int }) <= 0x7fff_ffff_ffff_ffff,
    ensures
        lex(sign_part(neg) + d, 0) == (
            Lexeme::Number(if neg { -digits_value(d) } else { digits_value(d) as int }),
            (sign_part(neg) + d).len() as int,
        ),
{
    let t = sign_part(neg) + d;
    let s = sign_part(neg).len() as int;
    assert(forall|m: int| s <= m < t.len() ==> t[m] == d[m - s]);
    assert(!is_ws(t[0]));
    lemma_digits_end_at(t, 1, t.len() as int);
    assert(t.subrange(s, t.len() as int) =~= d);
}

proof fn lemma_fraction_end(t: Seq<u8>, a: int, f: Seq<u8>)
    requires
        0 <= a,
        a + f.len() <= t.len(),
        t.subrange(a, a + f.len()) == f,
        is_fraction(f),
        a + f.len() == t.len() || !is_digit(t[a + f.len()]),
        f.len() == 0 ==> a == t.len() || t[a] != 0x2e,
    ensures
        fraction_end(t, a) == a + f.len(),
{
    if f.len() > 0 {
        assert(t[a] == f[0]);
        assert forall|m: int| a + 1 <= m < a + f.len() implies is_digit(#[trigger] t[m]) by {
            assert(t[m] == f.skip(1)[m - a - 1]);
        }
        lemma_digits_end_at(t, a + 1, a + f.len());
    }
}

/// A float literal, an optional minus, digits, then a fraction, an exponent or
/// both, yields its exact text and consumes the whole literal.
pub proof fn lemma_float_literal(neg: bool, d: Seq<u8>, f: Seq<u8>, x: Seq<u8>)
    requires
        d.len() > 0,
        all_digits(d),
        is_fraction(f),
        is_exponent(x),
        f.len() + x.len() > 0,
    ensures
        lex(sign_part(neg) + d + f + x, 0) == (
            Lexeme::Float(sign_part(neg) + d + f + x),
            (sign_part(neg) + d + f + x).len() as int,
        ),
{
    let t = sign_part(neg) + d + f + x;
    let s = sign_part(neg).len() as int;
    let a = s + d.len();
    let b = a + f.len();
    assert(forall|m: int| s <= m < a ==> t[m] == d[m - s]);
    assert(forall|m: int| a <= m < b ==> t[m] == f[m - a]);
    assert(forall|m: int| b <= m < t.len() ==> t[m] == x[m - b]);
    assert(!is_ws(t[0]));
    if f.len() > 0 {
        assert(t[a] == f[0]);
        assert(!is_digit(t[a]));
    } else if x.len() > 0 {
        assert(t[a] == x[0]);
    }
    lemma_digits_end_at(t, 1, a);
    assert(t.subrange(a, b) =~= f);
    if x.len() > 0 {
        assert(t[b] == x[0]);
    }
    lemma_fraction_end(t, a, f);
    if x.len() > 0 {
        let j = exp_digits_start(t, b);
        assert(t[b + 1] == x[1]);
        let o = j - b;
        assert forall|m: int| j <= m < t.len() implies is_digit(#[trigger] t[m]) by {
            assert(t[m] == x.skip(o)[m - j]);
        }
        lemma_digits_end_at(t, j, t.len() as int);
    }
    assert(t.subrange(0, t.len() as int) =~= t);
}

/// An exponent marker with no digit after it, past an optional sign, fails
/// the scan, with or without a fraction before it.
pub proof fn lemma_exponent_needs_digit(
    neg: bool,
    d: Seq<u8>,
    f: Seq<u8>,
    mark: u8,
    sg: Seq<u8>,
    rest: Seq<u8>,
)
    requires
        d.len() > 0,
        all_digits(d),
        is_fraction(f),
        is_exp_mark(mark),
        sg.len() == 0 || (sg.len() == 1 && is_sign(sg[0])),
        rest.len() == 0 || (!is_digit(rest[0]) && (sg.len() == 0 ==> !is_sign(rest[0]))),
    ensures
        lex(sign_part(neg) + d + f + seq![mark] + sg + rest, 0).0 == Lexeme::Undefined,
{
    let t = sign_part(neg) + d + f + seq![mark] + sg + rest;
    let s = sign_part(neg).len() as int;
    let a = s + d.len();
    let b = a + f.len();
    assert(forall|m: int| s <= m < a ==> t[m] == d[m - s]);
    assert(forall|m: int| a <= m < b ==> t[m] == f[m - a]);
    assert(t[b] == mark);
    assert(forall|m: int| 0 <= m < sg.len() ==> t[b + 1 + m] == sg[m]);
    assert(forall|m: int| 0 <= m < rest.len() ==> t[b + 1 + sg.len() + m] == rest[m]);
    assert(!is_ws(t[0]));
    if f.len() > 0 {
        assert(t[a] == f[0]);
    }
    lemma_digits_end_at(t, 1, a);
    assert(t.subrange(a, b) =~= f);
    lemma_fraction_end(t, a, f);
    assert(exp_digits_start(t, b) == b + 1 + sg.len());
}

proof fn lemma_ws_end_shift(w: Seq<u8>, t: Seq<u8>, i: int)
    requires
        0 <= i <= t.len(),
    ensures
        ws_end(w + t, w.len() + i) == w.len() + ws_end(t, i),
    decreases t.len() - i,
{
    let u = w + t;
    if i < t.len() {
        assert(u[w.len() + i] == t[i]);
        if is_ws(t[i]) {
            lemma_ws_end_shift(w, t, i + 1);
        }
    }
}

proof fn lemma_digits_end_shift(w: Seq<u8>, t: Seq<u8>, i: int)
    requires
        0 <= i <= t.len(),
    ensures
        digits_end(w + t, w.len() + i) == w.len() + digits_end(t, i),
    decreases t.len() - i,
{
    let u = w + t;
    if i < t.len() {
        assert(u[w.len() + i] == t[i]);
        if is_digit(t[i]) {
            lemma_digits_end_shift(w, t, i + 1);
        }
    }
}

proof fn lemma_string_close_shift(w: Seq<u8>, t: Seq<u8>, q: u8, i: int)
    requires
        0 <= i,
    ensures
        string_close(w + t, q, w.len() + i) == match string_close(t, q, i) {
            Ok(c) => Ok::<int, int>(w.len() + c),
            Err(e) => Err::<int, int>(w.len() + e),
        },
    decreases t.len() - i,
{
    let u = w + t;
    if i < t.len() {
        assert(u[w.len() + i] == t[i]);
        if t[i] != q && t[i] != 0x0a {
            if t[i] == 0x5c {
                if i + 2 <= t.len() {
                    lemma_string_close_shift(w, t, q, i + 2);
                }
            } else {
                lemma_string_close_shift(w, t, q, i + 1);
            }
        }
    }
}

proof fn lemma_word_at_shift(w: Seq<u8>, t: Seq<u8>, k: int, word: Seq<u8>)
    requires
        0 <= k <= t.len(),
    ensures
        word_at(w + t, w.len() + k, word) == word_at(t, k, word),
{
    let u = w + t;
    if k + word.len() <= t.len() {
        assert(u.subrange(w.len() + k, w.len() + k + word.len()) =~= t.subrange(k, k + word.len()));
    }
}

/// The scan of a token does not depend on what stands before it.
proof fn lemma_scan_at_shift(w: Seq<u8>, t: Seq<u8>, k: int)
    requires
        0 <= k < t.len(),
    ensures
        scan_at(w + t, w.len() + k) == (scan_at(t, k).0, w.len() + scan_at(t, k).1),
{
    let u = w + t;
    let m = w.len() as int;
    assert(forall|i: int| 0 <= i < t.len() ==> u[m + i] == #[trigger] t[i]);
    assert(forall|i: int, j: int|
        0 <= i <= j <= t.len() ==> u.subrange(m + i, m + j) =~= #[trigger] t.subrange(i, j));
    if is_digit(t[k]) || t[k] == 0x2d {
        lemma_digits_end_shift(w, t, k + 1);
        let a = digits_end(t, k + 1);
        lemma_digits_end_bounds(t, k + 1);
        if a < t.len() && t[a] == 0x2e {
            lemma_digits_end_shift(w, t, a + 1);
            lemma_digits_end_bounds(t, a + 1);
        }
        let b = fraction_end(t, a);
        assert(fraction_end(u, m + a) == m + b);
        if b < t.len() && is_exp_mark(t[b]) {
            let j = exp_digits_start(t, b);
            assert(exp_digits_start(u, m + b) == m + j);
            if j < t.len() && is_digit(t[j]) {
                lemma_digits_end_shift(w, t, j);
                lemma_digits_end_bounds(t, j);
            }
        }
    } else if t[k] == 0x22 {
        lemma_string_close_shift(w, t, t[k], k + 1);
        match string_close(t, t[k], k + 1) {
            Ok(c) => {
                lemma_string_close_bounds(t, t[k], k + 1);
            },
            Err(e) => {},
        }
    } else {
        lemma_word_at_shift(w, t, k, word_true());
        lemma_word_at_shift(w, t, k, word_false());
        lemma_word_at_shift(w, t, k, word_null());
    }
}

proof fn lemma_digits_end_bounds(t: Seq<u8>, i: int)
    requires
        0 <= i <= t.len(),
    ensures
        i <= digits_end(t, i) <= t.len(),
    decreases t.len() - i,
{
    if i < t.len() && is_digit(t[i]) {
        lemma_digits_end_bounds(t, i + 1);
    }
}

proof fn lemma_string_close_bounds(t: Seq<u8>, q: u8, i: int)
    requires
        0 <= i,
    ensures
        string_close(t, q, i) is Ok ==> i <= string_close(t, q, i)->Ok_0 < t.len(),
    decreases t.len() - i,
{
    if 0 <= i < t.len() && t[i] != q && t[i] != 0x0a {
        if t[i] == 0x5c {
            if i + 2 <= t.len() {
                lemma_string_close_bounds(t, q, i + 2);
            }
        } else {
            lemma_string_close_bounds(t, q, i + 1);
        }
    }
}

/// Whitespace before a token changes neither the token nor its value: the
/// cursor only ends further on by the whitespace's length.
pub proof fn lemma_whitespace_prefix(w: Seq<u8>, t: Seq<u8>)
    requires
        all_ws(w),
    ensures
        lex(w + t, 0) == (lex(t, 0).0, w.len() + lex(t, 0).1),
{
    let u = w + t;
    let m = w.len() as int;
    lemma_ws_end_shift(w, t, 0);
    lemma_ws_end_bounds(t, 0);
    let k = ws_end(t, 0);
    assert forall|i: int| 0 <= i < m implies is_ws(#[trigger] u[i]) by {
        assert(u[i] == w[i]);
    }
    lemma_ws_end_skip(u, 0, m);
    if k < t.len() {
        lemma_scan_at_shift(w, t, k);
    }
}

} // verus!
