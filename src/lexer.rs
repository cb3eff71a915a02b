use vstd::prelude::*;
use vstd::slice::{slice_subrange, slice_to_vec};
use vstd::string::StringSliceAdditionalSpecFns;
use crate::grammar::{
    digits_end, digits_value, float_span, integer_span, is_digit, is_ws, lex, scan_keyword,
    scan_number, scan_string, scan_symbol, string_close, word_at, word_false, word_null, word_true,
    ws_end,
};
use crate::token::{decode_lossy, denotes, ReserveCode, Token, TokenType};

verus! {

/// A lexer over JSON text: the text's bytes, fixed for the lexer's lifetime,
/// and a cursor into them.
pub struct JsonLexer {
    /// All the text being lexed.
    json_text: Vec<u8>,
    /// The byte offset where the next scan starts.
    index: usize,
}

impl JsonLexer {
    /// The bytes of the text.
    pub closed spec fn text(&self) -> Seq<u8> {
        self.json_text@
    }

    /// The cursor.
    pub closed spec fn cursor(&self) -> int {
        self.index as int
    }

    /// The cursor never passes the end of the text.
    pub open spec fn wf(&self) -> bool {
        0 <= self.cursor() <= self.text().len()
    }

    /// Moves the cursor back to the start; the text stays as it is.
    pub fn reset(&mut self)
        ensures
            final(self).text() == old(self).text(),
            final(self).cursor() == 0,
            final(self).wf(),
    {
        self.index = 0;
    }

    /// A lexer over the given text, with the cursor at its start. Text that is
    /// already a `str` is always valid, so the result is always `Some`.
    pub fn from_raw_json(raw_json: &str) -> (r: Option<JsonLexer>)
        ensures
            r is Some,
            r->Some_0.text() == raw_json.spec_bytes(),
            r->Some_0.cursor() == 0,
            r->Some_0.wf(),
    {
        let json_text = slice_to_vec(raw_json.as_bytes());
        Some(JsonLexer { json_text, index: 0 })
    }

    /// Scans the next token into `token` and moves the cursor past what the
    /// scan consumed, as [`lex`] gives it. `Undefined` stands both for the end
    /// of the input and for a malformed token.
    pub fn next_token(&mut self, token: &mut Token)
        requires
            old(self).wf(),
        ensures
            final(self).text() == old(self).text(),
            final(self).wf(),
            final(self).cursor() == lex(old(self).text(), old(self).cursor()).1,
            denotes(final(token).kind(), lex(old(self).text(), old(self).cursor()).0),
    {
        let size = self.json_text.len();
        let json_text = self.json_text.as_slice();
        let mut index = self.index;

        skip_whitespace(json_text, &mut index, size);

        if is_eof(index, size) {
            token.set(TokenType::Undefined);
            self.index = index;
            return;
        }
        let ch = json_text[index];
        if is_digit_byte(ch) || ch == 0x2d {
            if !load_number(json_text, &mut index, size, token) {
                token.set(TokenType::Undefined);
            }
        } else if is_str_start(ch) {
            if !load_string(json_text, &mut index, size, token) {
                token.set(TokenType::Undefined);
            }
        } else if load_boolean_or_null(json_text, &mut index, size, token) {
        } else if !load_reserve(json_text, &mut index, token) {
            token.set(TokenType::Undefined);
        }
        self.index = index;
    }
}

pub fn is_eof(index: usize, size: usize) -> (r: bool)
    ensures
        r == (index >= size),
{
    index >= size
}

fn is_whitespace_byte(b: u8) -> (r: bool)
    ensures
        r == is_ws(b),
{
    b == 0x20 || b == 0x09 || b == 0x0a || b == 0x0c || b == 0x0d
}

fn is_digit_byte(b: u8) -> (r: bool)
    ensures
        r == is_digit(b),
{
    0x30 <= b && b <= 0x39
}

/// Advances the cursor past whitespace.
pub fn skip_whitespace(json: &[u8], index: &mut usize, size: usize)
    requires
        size == json@.len(),
        *old(index) <= size,
    ensures
        *final(index) == ws_end(json@, *old(index) as int),
        *old(index) <= *final(index) <= size,
{
    let ghost start = *index as int;
    while !is_eof(*index, size) && is_whitespace_byte(json[*index])
        invariant
            size == json@.len(),
            start <= *index <= size,
            ws_end(json@, *index as int) == ws_end(json@, start),
        decreases size - *index,
    {
        *index += 1;
    }
}

pub fn is_str_start(c: u8) -> (r: bool)
    ensures
        r == (c == 0x22),
{
    c == 0x22
}

/// Advances the cursor past a run of digits.
pub fn get_integer_num(json: &[u8], index: &mut usize, size: usize)
    requires
        size == json@.len(),
        *old(index) <= size,
    ensures
        *final(index) == digits_end(json@, *old(index) as int),
        *old(index) <= *final(index) <= size,
        forall|j: int| *old(index) <= j < *final(index) ==> is_digit(#[trigger] json@[j]),
{
    let ghost start = *index as int;
    while !is_eof(*index, size) && is_digit_byte(json[*index])
        invariant
            size == json@.len(),
            start <= *index <= size,
            digits_end(json@, *index as int) == digits_end(json@, start),
            forall|j: int| start <= j < *index ==> is_digit(#[trigger] json@[j]),
        decreases size - *index,
    {
        *index += 1;
    }
}

/// Builds the float token for `json[k..e)`, whose integer part ends at `a` and
/// whose fraction ends at `b`; fails where the literal has no digit before its
/// exponent.
fn load_float(json: &[u8], k: usize, a: usize, b: usize, e: usize, new_token: &mut Token) -> (r:
    bool)
    requires
        k < a <= b <= e <= json@.len(),
    ensures
        r == !(float_span(json@, k as int, a as int, b as int, e as int) is Undefined),
        r ==> denotes(
            final(new_token).kind(),
            float_span(json@, k as int, a as int, b as int, e as int),
        ),
{
    if is_digit_byte(json[k]) || a - k > 1 || b - a > 1 {
        let text = decode_lossy(slice_subrange(json, k, e));
        new_token.set(TokenType::Float { text });
        true
    } else {
        false
    }
}

proof fn lemma_digits_value_prefix(d: Seq<u8>, n: int)
    requires
        0 <= n <= d.len(),
    ensures
        digits_value(d.subrange(0, n)) <= digits_value(d),
    decreases d.len(),
{
    if n < d.len() {
        lemma_digits_value_prefix(d.drop_last(), n);
        assert(d.drop_last().subrange(0, n) =~= d.subrange(0, n));
    } else {
        assert(d.subrange(0, n) =~= d);
    }
}

/// Builds the integer token for `json[k..a)`: an optional `-` and digits.
/// Fails where there is no digit or the value does not fit in `i64`.
fn load_integer(json: &[u8], k: usize, a: usize, new_token: &mut Token) -> (r: bool)
    requires
        k < a <= json@.len(),
        is_digit(json@[k as int]) || json@[k as int] == 0x2d,
        forall|j: int| k < j < a ==> is_digit(#[trigger] json@[j]),
    ensures
        r == !(integer_span(json@, k as int, a as int) is Undefined),
        r ==> denotes(final(new_token).kind(), integer_span(json@, k as int, a as int)),
{
    let neg = json[k] == 0x2d;
    let start: usize = if neg { k + 1 } else { k };
    let ghost digits = json@.subrange(start as int, a as int);
    if start == a {
        return false;
    }
    let limit: u64 = if neg { 9223372036854775808 } else { 9223372036854775807 };
    let mut acc: u64 = 0;
    let mut i: usize = start;
    while i < a
        invariant
            start <= i <= a <= json@.len(),
            digits == json@.subrange(start as int, a as int),
            forall|j: int| start <= j < a ==> is_digit(#[trigger] json@[j]),
            acc == digits_value(json@.subrange(start as int, i as int)),
            acc <= limit,
            k < a,
            neg == (json@[k as int] == 0x2d),
            start == if neg { k + 1 } else { k as int },
            limit == if neg { 9223372036854775808u64 } else { 9223372036854775807u64 },
        decreases a - i,
    {
        assert(is_digit(json@[i as int]));
        let d: u64 = (json[i] - 0x30) as u64;
        assert(json@.subrange(start as int, i + 1).drop_last() =~= json@.subrange(
            start as int,
            i as int,
        ));
        assert(digits_value(json@.subrange(start as int, i + 1)) == acc * 10 + d);
        if acc > (limit - d) / 10 {
            assert(acc * 10 + d > limit) by (nonlinear_arith)
                requires
                    acc > (limit - d) / 10,
                    d <= 9,
                    d <= limit,
            ;
            proof {
                assert(digits.subrange(0, i + 1 - start) =~= json@.subrange(start as int, i + 1));
                lemma_digits_value_prefix(digits, i + 1 - start);
            }
            return false;
        }
        assert(acc * 10 + d <= limit) by (nonlinear_arith)
            requires
                acc <= (limit - d) / 10,
                d <= 9,
                d <= limit,
        ;
        acc = acc * 10 + d;
        i += 1;
    }
    let value: i64 = if neg {
        if acc == 9223372036854775808 {
            i64::MIN
        } else {
            -(acc as i64)
        }
    } else {
        acc as i64
    };
    new_token.set(TokenType::Number { value });
    true
}

/// Scans a number whose first byte, a digit or `-`, stands at the cursor.
fn load_number(json: &[u8], index: &mut usize, size: usize, new_token: &mut Token) -> (r: bool)
    requires
        size == json@.len(),
        *old(index) < size,
        is_digit(json@[*old(index) as int]) || json@[*old(index) as int] == 0x2d,
    ensures
        *final(index) == scan_number(json@, *old(index) as int).1,
        *final(index) <= size,
        r == !(scan_number(json@, *old(index) as int).0 is Undefined),
        r ==> denotes(final(new_token).kind(), scan_number(json@, *old(index) as int).0),
{
    let k = *index;
    *index += 1;
    get_integer_num(json, index, size);
    let a = *index;
    if !is_eof(*index, size) && json[*index] == 0x2e {
        *index += 1;
        get_integer_num(json, index, size);
    }
    let b = *index;
    if !is_eof(b, size) && (json[b] == 0x65 || json[b] == 0x45) {
        *index += 1;
        if !is_eof(*index, size) && (json[*index] == 0x2b || json[*index] == 0x2d) {
            *index += 1;
        }
        if is_eof(*index, size) || !is_digit_byte(json[*index]) {
            return false;
        }
        get_integer_num(json, index, size);
        load_float(json, k, a, b, *index, new_token)
    } else if b > a {
        load_float(json, k, a, b, b, new_token)
    } else {
        load_integer(json, k, a, new_token)
    }
}

/// Scans a string whose opening quote stands at the cursor; the same byte
/// closes it.
fn load_string(json: &[u8], index: &mut usize, size: usize, new_token: &mut Token) -> (r: bool)
    requires
        size == json@.len(),
        *old(index) < size,
    ensures
        *final(index) == scan_string(json@, *old(index) as int).1,
        *final(index) <= size,
        r == !(scan_string(json@, *old(index) as int).0 is Undefined),
        r ==> denotes(final(new_token).kind(), scan_string(json@, *old(index) as int).0),
{
    let ghost k = *index as int;
    let quote = json[*index];
    *index += 1;
    let start = *index;
    while *index < size
        invariant
            size == json@.len(),
            0 <= k < size,
            k == *old(index),
            quote == json@[k],
            start == k + 1,
            start <= *index <= size,
            string_close(json@, quote, *index as int) == string_close(json@, quote, start as int),
        decreases size - *index,
    {
        let ch = json[*index];
        if ch == quote {
            let end = *index;
            *index += 1;
            let value = decode_lossy(slice_subrange(json, start, end));
            new_token.set(TokenType::String { value });
            return true;
        } else if ch == 0x0a {
            return false;
        } else if ch == 0x5c {
            if size - *index >= 2 {
                *index += 2;
            } else {
                *index = size;
            }
        } else {
            *index += 1;
        }
    }
    false
}

/// Whether the bytes at `k` spell `w`.
fn matches_word(json: &[u8], k: usize, w: &[u8]) -> (r: bool)
    ensures
        r == word_at(json@, k as int, w@),
{
    if k > json.len() || w.len() > json.len() - k {
        return false;
    }
    let mut i: usize = 0;
    while i < w.len()
        invariant
            k + w@.len() <= json.len(),
            i <= w@.len(),
            forall|j: int| 0 <= j < i ==> json@[k + j] == w@[j],
        decreases w@.len() - i,
    {
        if json[k + i] != w[i] {
            assert(json@.subrange(k as int, k + w@.len())[i as int] != w@[i as int]);
            return false;
        }
        i += 1;
    }
    assert(json@.subrange(k as int, k + w@.len()) =~= w@);
    true
}

/// Scans `true`, `false` or `null` at the cursor; leaves all as it is where
/// none of them is spelled there.
fn load_boolean_or_null(json: &[u8], index: &mut usize, size: usize, new_token: &mut Token) -> (r:
    bool)
    requires
        size == json@.len(),
        *old(index) <= size,
    ensures
        r == scan_keyword(json@, *old(index) as int) is Some,
        r ==> *final(index) == scan_keyword(json@, *old(index) as int)->Some_0.1,
        r ==> denotes(final(new_token).kind(), scan_keyword(json@, *old(index) as int)->Some_0.0),
        !r ==> *final(index) == *old(index),
        *final(index) <= size,
{
    let true_token: Vec<u8> = vec![0x74, 0x72, 0x75, 0x65];
    let false_token: Vec<u8> = vec![0x66, 0x61, 0x6c, 0x73, 0x65];
    let null_token: Vec<u8> = vec![0x6e, 0x75, 0x6c, 0x6c];
    assert(true_token@ =~= word_true());
    assert(false_token@ =~= word_false());
    assert(null_token@ =~= word_null());
    if matches_word(json, *index, true_token.as_slice()) {
        *index += 4;
        new_token.set(TokenType::Boolean { value: true });
        return true;
    }
    if matches_word(json, *index, false_token.as_slice()) {
        *index += 5;
        new_token.set(TokenType::Boolean { value: false });
        return true;
    }
    if matches_word(json, *index, null_token.as_slice()) {
        *index += 4;
        new_token.set(TokenType::Null);
        return true;
    }
    false
}

/// Scans one structural symbol at the cursor; the byte is consumed either way.
fn load_reserve(json: &[u8], index: &mut usize, new_token: &mut Token) -> (r: bool)
    requires
        *old(index) < json@.len(),
    ensures
        *final(index) == scan_symbol(json@, *old(index) as int).1,
        *final(index) <= json@.len(),
        r == !(scan_symbol(json@, *old(index) as int).0 is Undefined),
        r ==> denotes(final(new_token).kind(), scan_symbol(json@, *old(index) as int).0),
{
    let ch = json[*index];
    *index += 1;
    let code = if ch == 0x7b {
        ReserveCode::OpenBrace
    } else if ch == 0x7d {
        ReserveCode::CloseBrace
    } else if ch == 0x5b {
        ReserveCode::OpenBracket
    } else if ch == 0x5d {
        ReserveCode::CloseBracket
    } else if ch == 0x3a {
        ReserveCode::Colon
    } else if ch == 0x2c {
        ReserveCode::Comma
    } else {
        return false;
    };
    new_token.set(TokenType::Reserve { reserve_id: code });
    true
}

} // verus!
