use lumen::lexer::{lexes_cleanly, Lexer};
use lumen::token::{keyword, TokenKind};

fn tok(src: &str) -> Vec<TokenKind> {
    Lexer::new(src).tokenize().into_iter().map(|t| t.kind).collect()
}

fn float_bits(src: &str) -> u64 {
    match tok(src)[0] {
        TokenKind::Float(b) => b,
        ref k => panic!("not a float: {:?}", k),
    }
}

#[test]
fn decimal_literals_round_to_nearest() {
    for src in [
        "0.1",
        "2.5",
        "3.14159",
        "1234567.891",
        "0.000001",
        "99999999999999999999.5",
        "0.30000000000000004",
        "9007199254740993.0",
        "123456789012345678901234567890.0",
        "0.0000000000000000000000000000001",
    ] {
        assert_eq!(float_bits(src), src.parse::<f64>().unwrap().to_bits(), "{}", src);
    }
}

#[test]
fn huge_decimal_is_infinite() {
    let src = format!("1{}.0", "0".repeat(310));
    assert_eq!(float_bits(&src), f64::INFINITY.to_bits());
}

#[test]
fn trailing_dot_is_a_float() {
    assert_eq!(tok("5."), vec![TokenKind::Float(5.0f64.to_bits()), TokenKind::Eof]);
}

#[test]
fn out_of_range_integer_is_zero() {
    assert_eq!(tok("99999999999999999999"), vec![TokenKind::Int(0), TokenKind::Eof]);
}

#[test]
fn stray_character_ends_the_tokens() {
    assert_eq!(tok("1 & 2"), vec![TokenKind::Int(1), TokenKind::Eof]);
    assert_eq!(tok("@"), vec![TokenKind::Eof]);
}

#[test]
fn unknown_escape_is_dropped() {
    assert_eq!(tok(r#""a\qb""#), vec![TokenKind::Str("aqb".into()), TokenKind::Eof]);
}

#[test]
fn unterminated_string_is_refused() {
    assert!(!lexes_cleanly("\"abc"));
    assert!(lexes_cleanly("\"abc\""));
}

#[test]
fn keyword_lookup() {
    assert_eq!(keyword("while"), Some(TokenKind::While));
    assert_eq!(keyword("whale"), None);
}

#[test]
fn columns_count_bytes() {
    let toks = Lexer::new("let  x\n  = 1;").tokenize();
    let places: Vec<(usize, usize)> = toks.iter().map(|t| (t.line, t.col)).collect();
    assert_eq!(places, vec![(1, 1), (1, 6), (2, 3), (2, 5), (2, 6), (2, 7)]);
}

#[test]
fn end_of_input_repeats() {
    let mut lex = Lexer::new("x  // trailing comment");
    let first = lex.next_token();
    assert_eq!(first.kind, TokenKind::Ident("x".into()));
    let eof = lex.next_token();
    assert_eq!(eof.kind, TokenKind::Eof);
    assert!(lex.is_at_end());
    let again = lex.next_token();
    assert_eq!(again, eof);
    assert!(lex.is_at_end());
}

#[test]
fn skipping_twice_changes_nothing() {
    let mut lex = Lexer::new("  // a\n\t b");
    lex.skip_whitespace();
    let at = lex.peek();
    lex.skip_whitespace();
    assert_eq!(lex.peek(), at);
    assert_eq!(lex.next_token().col, 3);
}

#[test]
fn debug_text_matches_debug_below_0x100() {
    for code in 0u32..0x100 {
        let c = char::from_u32(code).unwrap();
        let s = format!("a{}b", c);
        assert_eq!(lumen::strings::debug_text(&s), format!("{:?}", s), "U+{:04X}", code);
    }
}
