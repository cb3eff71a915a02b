use serializers::{JsonLexer, ReserveCode, Token, TokenType};

fn lexer(text: &str) -> JsonLexer {
    JsonLexer::from_raw_json(text).expect("text is valid")
}

fn first(text: &str) -> TokenType {
    let mut lx = lexer(text);
    let mut token = Token::default();
    lx.next_token(&mut token);
    token.get_type()
}

fn all(lx: &mut JsonLexer, n: usize) -> Vec<TokenType> {
    let mut out = Vec::new();
    for _ in 0..n {
        let mut token = Token::default();
        lx.next_token(&mut token);
        out.push(token.get_type());
    }
    out
}

fn float_value(t: &TokenType) -> f64 {
    match t {
        TokenType::Float { text } => text.parse::<f64>().expect("float text parses"),
        other => panic!("not a float: {:?}", other),
    }
}

fn string_of(s: &str) -> TokenType {
    TokenType::String { value: s.to_string() }
}

#[test]
fn integer_literal() {
    assert_eq!(first("42"), TokenType::Number { value: 42 });
}

#[test]
fn negative_integer_literal() {
    assert_eq!(first("-7"), TokenType::Number { value: -7 });
}

#[test]
fn integer_extremes() {
    assert_eq!(first("9223372036854775807"), TokenType::Number { value: i64::MAX });
    assert_eq!(first("-9223372036854775808"), TokenType::Number { value: i64::MIN });
}

#[test]
fn integer_overflow_fails() {
    assert_eq!(first("9223372036854775808"), TokenType::Undefined);
    assert_eq!(first("-9223372036854775809"), TokenType::Undefined);
    assert_eq!(first("123456789012345678901234567890"), TokenType::Undefined);
}

#[test]
fn lone_minus_fails() {
    assert_eq!(first("-"), TokenType::Undefined);
    assert_eq!(first("- 1"), TokenType::Undefined);
}

#[test]
fn float_with_fraction_and_exponent() {
    let t = first("-12.5e+3");
    assert_eq!(t, TokenType::Float { text: "-12.5e+3".to_string() });
    assert_eq!(float_value(&t), -12500.0);
}

#[test]
fn float_with_fraction_only() {
    let t = first("3.25");
    assert_eq!(float_value(&t), 3.25);
}

#[test]
fn float_with_exponent_only() {
    let t = first("2E-2");
    assert_eq!(t, TokenType::Float { text: "2E-2".to_string() });
    assert_eq!(float_value(&t), 0.02);
}

#[test]
fn malformed_exponent_fails() {
    assert_eq!(first("1e"), TokenType::Undefined);
    assert_eq!(first("1.5E+"), TokenType::Undefined);
    assert_eq!(first("1e-x"), TokenType::Undefined);
}

#[test]
fn float_needs_a_mantissa_digit() {
    assert_eq!(first("-.e5"), TokenType::Undefined);
    assert_eq!(float_value(&first("-.5")), -0.5);
}

#[test]
fn keywords() {
    assert_eq!(first("true"), TokenType::Boolean { value: true });
    assert_eq!(first("false"), TokenType::Boolean { value: false });
    assert_eq!(first("null"), TokenType::Null);
}

#[test]
fn structural_symbols() {
    let mut lx = lexer("{}[]:,");
    let expected = [
        ReserveCode::OpenBrace,
        ReserveCode::CloseBrace,
        ReserveCode::OpenBracket,
        ReserveCode::CloseBracket,
        ReserveCode::Colon,
        ReserveCode::Comma,
    ];
    let got = all(&mut lx, 6);
    for (t, c) in got.iter().zip(expected.iter()) {
        assert_eq!(*t, TokenType::Reserve { reserve_id: *c });
    }
}

#[test]
fn string_with_escaped_quote_keeps_escape() {
    assert_eq!(first("\"a\\\"b\""), string_of("a\\\"b"));
}

#[test]
fn string_escapes_not_decoded() {
    assert_eq!(first("\"x\\ny\\u0041\""), string_of("x\\ny\\u0041"));
}

#[test]
fn empty_string() {
    assert_eq!(first("\"\""), string_of(""));
}

#[test]
fn non_ascii_string_is_decoded() {
    assert_eq!(first("\"h\u{e9}llo \u{2603}\""), string_of("h\u{e9}llo \u{2603}"));
}

#[test]
fn string_with_newline_fails() {
    assert_eq!(first("\"ab\ncd\""), TokenType::Undefined);
}

#[test]
fn unterminated_string_fails() {
    assert_eq!(first("\"abc"), TokenType::Undefined);
    assert_eq!(first("\"abc\\"), TokenType::Undefined);
}

#[test]
fn unrecognized_character_fails() {
    assert_eq!(first("@"), TokenType::Undefined);
    assert_eq!(first("xyz"), TokenType::Undefined);
}

#[test]
fn whitespace_prefix_does_not_change_token() {
    for text in ["42", "-12.5e+3", "\"a b\"", "true", "null", "]"] {
        let padded = format!(" \t\r\n{}", text);
        assert_eq!(first(&padded), first(text));
    }
}

#[test]
fn end_of_input_is_stable() {
    let mut lx = lexer("  1 ");
    let got = all(&mut lx, 5);
    assert_eq!(got[0], TokenType::Number { value: 1 });
    for t in &got[1..] {
        assert_eq!(*t, TokenType::Undefined);
    }
    assert_eq!(first(""), TokenType::Undefined);
    assert_eq!(first(" \n\t "), TokenType::Undefined);
}

#[test]
fn reset_replays_tokens() {
    let text = "{\"k\": [1, 2.5, true, null, \"v\"]}";
    let mut lx = lexer(text);
    let before = all(&mut lx, 15);
    lx.reset();
    let after = all(&mut lx, 15);
    assert_eq!(before, after);
    let mut fresh = lexer(text);
    assert_eq!(all(&mut fresh, 15), before);
    assert_eq!(before[0], TokenType::Reserve { reserve_id: ReserveCode::OpenBrace });
    assert_eq!(before[1], string_of("k"));
    assert_eq!(before[2], TokenType::Reserve { reserve_id: ReserveCode::Colon });
    assert_eq!(before[4], TokenType::Number { value: 1 });
    assert_eq!(float_value(&before[6]), 2.5);
    assert_eq!(before[8], TokenType::Boolean { value: true });
    assert_eq!(before[10], TokenType::Null);
    assert_eq!(before[12], string_of("v"));
    assert_eq!(before[13], TokenType::Reserve { reserve_id: ReserveCode::CloseBracket });
    assert_eq!(before[14], TokenType::Reserve { reserve_id: ReserveCode::CloseBrace });
}

#[test]
fn keyword_is_not_word_bounded() {
    let mut lx = lexer("truex");
    let got = all(&mut lx, 3);
    assert_eq!(got[0], TokenType::Boolean { value: true });
    assert_eq!(got[1], TokenType::Undefined);
    assert_eq!(got[2], TokenType::Undefined);
}

#[test]
fn number_then_symbol() {
    let mut lx = lexer("10,-3]");
    let got = all(&mut lx, 4);
    assert_eq!(got[0], TokenType::Number { value: 10 });
    assert_eq!(got[1], TokenType::Reserve { reserve_id: ReserveCode::Comma });
    assert_eq!(got[2], TokenType::Number { value: -3 });
    assert_eq!(got[3], TokenType::Reserve { reserve_id: ReserveCode::CloseBracket });
}

#[test]
fn defaults_are_undefined() {
    assert_eq!(Token::default().get_type(), TokenType::Undefined);
    assert_eq!(TokenType::default(), TokenType::Undefined);
    assert_eq!(ReserveCode::default(), ReserveCode::Undefined);
}
