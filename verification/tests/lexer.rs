use lumen::lexer::Lexer;
use lumen::token::TokenKind;

fn tok(src: &str) -> Vec<TokenKind> {
    Lexer::new(src).tokenize().into_iter().map(|t| t.kind).collect()
}

#[test]
fn empty_source() {
    assert_eq!(tok(""), vec![TokenKind::Eof]);
}

#[test]
fn single_plus() {
    assert_eq!(tok("+"), vec![TokenKind::Plus, TokenKind::Eof]);
}

#[test]
fn two_char_operators() {
    assert_eq!(
        tok("!= == <= >= && ||"),
        vec![
            TokenKind::BangEqual,
            TokenKind::EqualEqual,
            TokenKind::LessEqual,
            TokenKind::GreaterEqual,
            TokenKind::AmpAmp,
            TokenKind::PipePipe,
            TokenKind::Eof,
        ]
    );
}

#[test]
fn integer_literal() {
    assert_eq!(tok("42"), vec![TokenKind::Int(42), TokenKind::Eof]);
}

#[test]
fn float_literal() {
    assert_eq!(tok("3.14"), vec![TokenKind::Float(3.14f64.to_bits()), TokenKind::Eof]);
}

#[test]
fn string_literal() {
    assert_eq!(tok(r#""hello""#), vec![TokenKind::Str("hello".into()), TokenKind::Eof]);
}

#[test]
fn string_escape() {
    assert_eq!(tok(r#""\n\t""#), vec![TokenKind::Str("\n\t".into()), TokenKind::Eof]);
}

#[test]
fn keywords() {
    assert_eq!(
        tok("let fn if else while return true false nil"),
        vec![
            TokenKind::Let,
            TokenKind::Fn,
            TokenKind::If,
            TokenKind::Else,
            TokenKind::While,
            TokenKind::Return,
            TokenKind::True,
            TokenKind::False,
            TokenKind::Nil,
            TokenKind::Eof,
        ]
    );
}

#[test]
fn identifier() {
    assert_eq!(tok("foo_bar"), vec![TokenKind::Ident("foo_bar".into()), TokenKind::Eof]);
}

#[test]
fn position_tracking() {
    let mut lex = Lexer::new("a\nb");
    let t1 = lex.next_token();
    let t2 = lex.next_token();
    assert_eq!(t1.line, 1);
    assert_eq!(t2.line, 2);
    assert_eq!(t2.col, 1);
}

#[test]
fn whitespace_skipped() {
    assert_eq!(tok("  +  "), vec![TokenKind::Plus, TokenKind::Eof]);
}

#[test]
fn full_expression() {
    assert_eq!(
        tok("let x = 1 + 2;"),
        vec![
            TokenKind::Let,
            TokenKind::Ident("x".into()),
            TokenKind::Equal,
            TokenKind::Int(1),
            TokenKind::Plus,
            TokenKind::Int(2),
            TokenKind::Semicolon,
            TokenKind::Eof,
        ]
    );
}

#[test]
fn line_comment_skipped() {
    assert_eq!(tok("// comment\n+"), vec![TokenKind::Plus, TokenKind::Eof]);
}

#[test]
fn inline_comment_after_token() {
    assert_eq!(
        tok("1 // comment\n+ 2"),
        vec![TokenKind::Int(1), TokenKind::Plus, TokenKind::Int(2), TokenKind::Eof]
    );
}

#[test]
fn comment_at_end_of_file_no_newline() {
    assert_eq!(tok("1 // eof comment"), vec![TokenKind::Int(1), TokenKind::Eof]);
}
