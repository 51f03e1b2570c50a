//! Tokens produced by the lexer.

use vstd::prelude::*;
use vstd::string::StringSliceAdditionalSpecFns;

verus! {

/// The kind of a token. A float literal carries the IEEE-754 binary64 bit
/// pattern of its value (`f64::to_bits`).
#[derive(Debug, Clone, PartialEq)]
pub enum TokenKind {
    // Literals
    Int(i64),
    Float(u64),
    Str(String),
    Ident(String),

    // Single-character punctuation and operators
    Plus,
    Minus,
    Star,
    Slash,
    Percent,
    LParen,
    RParen,
    LBrace,
    RBrace,
    Comma,
    Semicolon,
    Colon,
    Bang,
    Equal,
    Less,
    Greater,

    // Two-character operators
    BangEqual,
    EqualEqual,
    LessEqual,
    GreaterEqual,
    AmpAmp,
    PipePipe,

    // Keywords
    Let,
    Fn,
    If,
    Else,
    While,
    Return,
    True,
    False,
    Nil,

    Eof,
}

/// A token with the line and column (both starting at 1) of its first byte.
#[derive(Debug, Clone, PartialEq)]
pub struct Token {
    pub kind: TokenKind,
    pub line: usize,
    pub col: usize,
}

impl Token {
    pub fn new(kind: TokenKind, line: usize, col: usize) -> (t: Token)
        ensures
            t.kind == kind,
            t.line == line,
            t.col == col,
    {
        Token { kind, line, col }
    }
}

/// Whether a token kind is the end-of-input marker.
pub open spec fn is_eof(k: TokenKind) -> bool {
    k is Eof
}

pub fn kind_is_eof(k: &TokenKind) -> (b: bool)
    ensures
        b == is_eof(*k),
{
    match k {
        TokenKind::Eof => true,
        _ => false,
    }
}

/// The keyword spelled by `w`, if any.
pub open spec fn keyword_spec(w: Seq<u8>) -> Option<TokenKind> {
    if w =~= seq![108u8, 101, 116] {
        Some(TokenKind::Let)  // let
    } else if w =~= seq![102u8, 110] {
        Some(TokenKind::Fn)  // fn
    } else if w =~= seq![105u8, 102] {
        Some(TokenKind::If)  // if
    } else if w =~= seq![101u8, 108, 115, 101] {
        Some(TokenKind::Else)  // else
    } else if w =~= seq![119u8, 104, 105, 108, 101] {
        Some(TokenKind::While)  // while
    } else if w =~= seq![114u8, 101, 116, 117, 114, 110] {
        Some(TokenKind::Return)  // return
    } else if w =~= seq![116u8, 114, 117, 101] {
        Some(TokenKind::True)  // true
    } else if w =~= seq![102u8, 97, 108, 115, 101] {
        Some(TokenKind::False)  // false
    } else if w =~= seq![110u8, 105, 108] {
        Some(TokenKind::Nil)  // nil
    } else {
        None
    }
}

/// Keyword lookup on the bytes of a word.
pub fn keyword_bytes(w: &[u8]) -> (k: Option<TokenKind>)
    ensures
        k == keyword_spec(w@),
{
    let n = w.len();
    if n == 2 && w[0] == 102 && w[1] == 110 {
        assert(w@ =~= seq![102u8, 110]);
        Some(TokenKind::Fn)
    } else if n == 2 && w[0] == 105 && w[1] == 102 {
        assert(w@ =~= seq![105u8, 102]);
        Some(TokenKind::If)
    } else if n == 3 && w[0] == 108 && w[1] == 101 && w[2] == 116 {
        assert(w@ =~= seq![108u8, 101, 116]);
        Some(TokenKind::Let)
    } else if n == 3 && w[0] == 110 && w[1] == 105 && w[2] == 108 {
        assert(w@ =~= seq![110u8, 105, 108]);
        Some(TokenKind::Nil)
    } else if n == 4 && w[0] == 101 && w[1] == 108 && w[2] == 115 && w[3] == 101 {
        assert(w@ =~= seq![101u8, 108, 115, 101]);
        Some(TokenKind::Else)
    } else if n == 4 && w[0] == 116 && w[1] == 114 && w[2] == 117 && w[3] == 101 {
        assert(w@ =~= seq![116u8, 114, 117, 101]);
        Some(TokenKind::True)
    } else if n == 5 && w[0] == 119 && w[1] == 104 && w[2] == 105 && w[3] == 108 && w[4] == 101 {
        assert(w@ =~= seq![119u8, 104, 105, 108, 101]);
        Some(TokenKind::While)
    } else if n == 5 && w[0] == 102 && w[1] == 97 && w[2] == 108 && w[3] == 115 && w[4] == 101 {
        assert(w@ =~= seq![102u8, 97, 108, 115, 101]);
        Some(TokenKind::False)
    } else if n == 6 && w[0] == 114 && w[1] == 101 && w[2] == 116 && w[3] == 117 && w[4] == 114
        && w[5] == 110 {
        assert(w@ =~= seq![114u8, 101, 116, 117, 114, 110]);
        Some(TokenKind::Return)
    } else {
        None
    }
}

/// The keyword token spelled by `word`, or `None` for any other word.
pub fn keyword(word: &str) -> (k: Option<TokenKind>)
    ensures
        k == keyword_spec(word.spec_bytes()),
{
    keyword_bytes(word.as_bytes())
}

} // verus!
