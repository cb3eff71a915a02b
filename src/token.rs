use vstd::prelude::*;
use vstd::utf8::{decode_utf8, valid_utf8};
use crate::grammar::Lexeme;

verus! {

/// The six single-character structural symbols of JSON, and a placeholder.
#[derive(Debug, Clone, Copy, PartialEq, Eq, Structural)]
pub enum ReserveCode {
    OpenBrace,
    CloseBrace,
    OpenBracket,
    CloseBracket,
    Colon,
    Comma,
    Undefined,
}

impl Default for ReserveCode {
    fn default() -> (r: Self)
        ensures
            r == ReserveCode::Undefined,
    {
        ReserveCode::Undefined
    }
}

/// One lexical unit.
///
/// A float literal is kept as its exact source text: its numeric value is
/// what `str::parse::<f64>` gives for that text.
#[allow(inconsistent_fields)]
#[derive(Debug, Clone, PartialEq)]
pub enum TokenType {
    Reserve { reserve_id: ReserveCode },
    Number { value: i64 },
    Float { text: String },
    Boolean { value: bool },
    String { value: String },
    Null,
    Undefined,
}

impl Default for TokenType {
    fn default() -> (r: Self)
        ensures
            r is Undefined,
    {
        TokenType::Undefined
    }
}

/// The slot that [`crate::lexer::JsonLexer::next_token`] fills.
#[derive(Debug, Clone, PartialEq)]
pub struct Token {
    token_type: TokenType,
}

impl Default for Token {
    fn default() -> (r: Self)
        ensures
            r.kind() is Undefined,
    {
        Token { token_type: TokenType::Undefined }
    }
}

impl Token {
    /// The token held in this slot.
    pub closed spec fn kind(&self) -> TokenType {
        self.token_type
    }

    pub fn get_type(&self) -> (r: TokenType)
        ensures
            r == self.kind(),
    {
        match &self.token_type {
            TokenType::Reserve { reserve_id } => TokenType::Reserve { reserve_id: *reserve_id },
            TokenType::Number { value } => TokenType::Number { value: *value },
            TokenType::Float { text } => TokenType::Float { text: text.clone() },
            TokenType::Boolean { value } => TokenType::Boolean { value: *value },
            TokenType::String { value } => TokenType::String { value: value.clone() },
            TokenType::Null => TokenType::Null,
            TokenType::Undefined => TokenType::Undefined,
        }
    }

    pub(crate) fn set(&mut self, t: TokenType)
        ensures
            final(self).kind() == t,
    {
        self.token_type = t;
    }
}

/// What `String::from_utf8_lossy` makes of a sequence of bytes.
pub uninterp spec fn utf8_lossy(b: Seq<u8>) -> Seq<char>;

/// Relies on `String::from_utf8_lossy`, owned: the bytes decoded as UTF-8, with
/// each invalid sequence replaced; valid UTF-8 decodes as it is.
#[verifier::external_body]
pub(crate) fn decode_lossy(b: &[u8]) -> (r: String)
    ensures
        r@ == utf8_lossy(b@),
        valid_utf8(b@) ==> r@ == decode_utf8(b@),
{
    String::from_utf8_lossy(b).into_owned()
}

/// Whether token `t` is the executable form of the model `l`: bytes become
/// text through `String::from_utf8_lossy`.
pub open spec fn denotes(t: TokenType, l: Lexeme) -> bool {
    match l {
        Lexeme::Reserve(c) => t == TokenType::Reserve { reserve_id: c },
        Lexeme::Number(v) => t is Number && t->Number_value == v,
        Lexeme::Float(b) => t is Float && t->text@ == utf8_lossy(b),
        Lexeme::Boolean(v) => t == TokenType::Boolean { value: v },
        Lexeme::Str(b) => t is String && t->String_value@ == utf8_lossy(b),
        Lexeme::Null => t is Null,
        Lexeme::Undefined => t is Undefined,
    }
}

} // verus!
