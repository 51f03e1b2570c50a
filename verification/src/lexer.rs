//! The lexer: source bytes to tokens.

use vstd::prelude::*;
use vstd::string::StringSliceAdditionalSpecFns;
use crate::decimal::{all_digits, binary64_bits, digits_value_below, dval, is_binary64_of};
use crate::strings::push_char;
use crate::token::{keyword_bytes, keyword_spec, Token, TokenKind};

verus! {

// ---------------------------------------------------------------------------
// Byte classes

pub open spec fn is_ws(b: u8) -> bool {
    b == 32 || b == 9 || b == 10 || b == 12 || b == 13
}

pub open spec fn is_digit(b: u8) -> bool {
    48 <= b <= 57
}

pub open spec fn is_alpha(b: u8) -> bool {
    (65 <= b <= 90) || (97 <= b <= 122)
}

pub open spec fn is_ident_start(b: u8) -> bool {
    is_alpha(b) || b == 95
}

pub open spec fn is_ident_char(b: u8) -> bool {
    is_alpha(b) || is_digit(b) || b == 95
}

fn byte_is_ws(b: u8) -> (r: bool)
    ensures
        r == is_ws(b),
{
    b == 32 || b == 9 || b == 10 || b == 12 || b == 13
}

fn byte_is_digit(b: u8) -> (r: bool)
    ensures
        r == is_digit(b),
{
    48 <= b && b <= 57
}

fn byte_is_ident_start(b: u8) -> (r: bool)
    ensures
        r == is_ident_start(b),
{
    (65 <= b && b <= 90) || (97 <= b && b <= 122) || b == 95
}

fn byte_is_ident_char(b: u8) -> (r: bool)
    ensures
        r == is_ident_char(b),
{
    (65 <= b && b <= 90) || (97 <= b && b <= 122) || (48 <= b && b <= 57) || b == 95
}

// ---------------------------------------------------------------------------
// Positions

/// The line (from 1) of byte `p`: one more than the newlines before it.
pub open spec fn line_at(s: Seq<u8>, p: int) -> int
    decreases p,
{
    if p <= 0 {
        1
    } else {
        line_at(s, p - 1) + if s[p - 1] == 10 {
            1int
        } else {
            0int
        }
    }
}

/// The column (from 1) of byte `p`: one more than the bytes since the last newline.
pub open spec fn col_at(s: Seq<u8>, p: int) -> int
    decreases p,
{
    if p <= 0 {
        1
    } else if s[p - 1] == 10 {
        1
    } else {
        col_at(s, p - 1) + 1
    }
}

pub proof fn lemma_position_bounds(s: Seq<u8>, p: int)
    requires
        0 <= p,
    ensures
        1 <= line_at(s, p) <= p + 1,
        1 <= col_at(s, p) <= p + 1,
    decreases p,
{
    if p > 0 {
        lemma_position_bounds(s, p - 1);
    }
}

// ---------------------------------------------------------------------------
// Whitespace and comments

pub open spec fn starts_comment(s: Seq<u8>, p: int) -> bool {
    0 <= p && p + 1 < s.len() && s[p] == 47 && s[p + 1] == 47
}

/// The first position at or after `p` that is neither whitespace nor inside
/// a line comment (`//` up to and including the next newline).
pub open spec fn skip_ws(s: Seq<u8>, p: int) -> int
    decreases s.len() - p, 1int,
{
    if p < 0 || p >= s.len() {
        p
    } else if is_ws(s[p]) {
        skip_ws(s, p + 1)
    } else if starts_comment(s, p) {
        skip_comment(s, p + 2)
    } else {
        p
    }
}

/// Skipping inside a line comment that started before `p`.
pub open spec fn skip_comment(s: Seq<u8>, p: int) -> int
    decreases s.len() - p, 0int,
{
    if p < 0 || p >= s.len() {
        p
    } else if s[p] == 10 {
        skip_ws(s, p + 1)
    } else {
        skip_comment(s, p + 1)
    }
}

pub proof fn lemma_skip_ws_bounds(s: Seq<u8>, p: int)
    requires
        0 <= p <= s.len(),
    ensures
        p <= skip_ws(s, p) <= s.len(),
    decreases s.len() - p, 1int,
{
    if p < s.len() {
        if is_ws(s[p]) {
            lemma_skip_ws_bounds(s, p + 1);
        } else if starts_comment(s, p) {
            lemma_skip_comment_bounds(s, p + 2);
        }
    }
}

pub proof fn lemma_skip_comment_bounds(s: Seq<u8>, p: int)
    requires
        0 <= p <= s.len(),
    ensures
        p <= skip_comment(s, p) <= s.len(),
    decreases s.len() - p, 0int,
{
    if p < s.len() {
        if s[p] == 10 {
            lemma_skip_ws_bounds(s, p + 1);
        } else {
            lemma_skip_comment_bounds(s, p + 1);
        }
    }
}

// ---------------------------------------------------------------------------
// Lexemes

/// What a token stands for, before it is built.
pub enum Lexeme {
    /// A token kind that holds no text.
    Simple(TokenKind),
    /// A string literal with its escapes resolved.
    Text(Seq<char>),
    /// A number: the bytes of its digits and optional dot.
    Number(Seq<u8>),
    /// A word: a keyword or an identifier.
    Word(Seq<u8>),
}

/// The body of a string literal starting at `p` (after the opening quote):
/// its characters and the position after the closing quote, or `None` when
/// the input ends first.
pub open spec fn string_body(s: Seq<u8>, p: int) -> Option<(Seq<char>, int)>
    decreases s.len() - p,
{
    if p < 0 || p >= s.len() {
        None
    } else if s[p] == 34 {
        Some((Seq::<char>::empty(), p + 1))
    } else if s[p] == 92 {
        if p + 1 < s.len() && (s[p + 1] == 110 || s[p + 1] == 116 || s[p + 1] == 34 || s[p + 1]
            == 92) {
            match string_body(s, p + 2) {
                Some((rest, e)) => Some((seq![escape_char(s[p + 1])] + rest, e)),
                None => None,
            }
        } else {
            string_body(s, p + 1)
        }
    } else {
        match string_body(s, p + 1) {
            Some((rest, e)) => Some((seq![s[p] as char] + rest, e)),
            None => None,
        }
    }
}

/// The character written by `\` followed by `b` (for n, t, " and \).
pub open spec fn escape_char(b: u8) -> char {
    if b == 110 {
        '\n'
    } else if b == 116 {
        '\t'
    } else if b == 34 {
        '"'
    } else {
        '\\'
    }
}

/// The end of a number whose rest starts at `p`: digits, and at most one dot.
pub open spec fn number_end(s: Seq<u8>, p: int, dot: bool) -> int
    decreases s.len() - p,
{
    if 0 <= p < s.len() && is_digit(s[p]) {
        number_end(s, p + 1, dot)
    } else if 0 <= p < s.len() && s[p] == 46 && !dot {
        number_end(s, p + 1, true)
    } else {
        p
    }
}

/// The end of a word whose rest starts at `p`.
pub open spec fn ident_end(s: Seq<u8>, p: int) -> int
    decreases s.len() - p,
{
    if 0 <= p < s.len() && is_ident_char(s[p]) {
        ident_end(s, p + 1)
    } else {
        p
    }
}

/// The token that starts at `p` (a non-whitespace byte) and where it ends,
/// or `None` for a string literal that is not closed.
pub open spec fn scan(s: Seq<u8>, p: int) -> Option<(Lexeme, int)> {
    let b = s[p];
    let next_is = |c: u8| p + 1 < s.len() && s[p + 1] == c;
    if b == 43 {
        Some((Lexeme::Simple(TokenKind::Plus), p + 1))
    } else if b == 45 {
        Some((Lexeme::Simple(TokenKind::Minus), p + 1))
    } else if b == 42 {
        Some((Lexeme::Simple(TokenKind::Star), p + 1))
    } else if b == 47 {
        Some((Lexeme::Simple(TokenKind::Slash), p + 1))
    } else if b == 37 {
        Some((Lexeme::Simple(TokenKind::Percent), p + 1))
    } else if b == 40 {
        Some((Lexeme::Simple(TokenKind::LParen), p + 1))
    } else if b == 41 {
        Some((Lexeme::Simple(TokenKind::RParen), p + 1))
    } else if b == 123 {
        Some((Lexeme::Simple(TokenKind::LBrace), p + 1))
    } else if b == 125 {
        Some((Lexeme::Simple(TokenKind::RBrace), p + 1))
    } else if b == 44 {
        Some((Lexeme::Simple(TokenKind::Comma), p + 1))
    } else if b == 59 {
        Some((Lexeme::Simple(TokenKind::Semicolon), p + 1))
    } else if b == 58 {
        Some((Lexeme::Simple(TokenKind::Colon), p + 1))
    } else if b == 33 {
        if next_is(61) {
            Some((Lexeme::Simple(TokenKind::BangEqual), p + 2))
        } else {
            Some((Lexeme::Simple(TokenKind::Bang), p + 1))
        }
    } else if b == 61 {
        if next_is(61) {
            Some((Lexeme::Simple(TokenKind::EqualEqual), p + 2))
        } else {
            Some((Lexeme::Simple(TokenKind::Equal), p + 1))
        }
    } else if b == 60 {
        if next_is(61) {
            Some((Lexeme::Simple(TokenKind::LessEqual), p + 2))
        } else {
            Some((Lexeme::Simple(TokenKind::Less), p + 1))
        }
    } else if b == 62 {
        if next_is(61) {
            Some((Lexeme::Simple(TokenKind::GreaterEqual), p + 2))
        } else {
            Some((Lexeme::Simple(TokenKind::Greater), p + 1))
        }
    } else if b == 38 {
        if next_is(38) {
            Some((Lexeme::Simple(TokenKind::AmpAmp), p + 2))
        } else {
            Some((Lexeme::Simple(TokenKind::Eof), p + 1))
        }
    } else if b == 124 {
        if next_is(124) {
            Some((Lexeme::Simple(TokenKind::PipePipe), p + 2))
        } else {
            Some((Lexeme::Simple(TokenKind::Eof), p + 1))
        }
    } else if b == 34 {
        match string_body(s, p + 1) {
            Some((text, e)) => Some((Lexeme::Text(text), e)),
            None => None,
        }
    } else if is_digit(b) {
        let e = number_end(s, p + 1, false);
        Some((Lexeme::Number(s.subrange(p, e)), e))
    } else if is_ident_start(b) {
        let e = ident_end(s, p + 1);
        Some((Lexeme::Word(s.subrange(p, e)), e))
    } else {
        Some((Lexeme::Simple(TokenKind::Eof), p + 1))
    }
}

// ---------------------------------------------------------------------------
// Numbers and words

pub open spec fn has_dot(raw: Seq<u8>) -> bool
    decreases raw.len(),
{
    if raw.len() == 0 {
        false
    } else {
        raw.last() == 46 || has_dot(raw.drop_last())
    }
}

/// The digit values of a number, without its dot.
pub open spec fn mant_digits(raw: Seq<u8>) -> Seq<u8>
    decreases raw.len(),
{
    if raw.len() == 0 {
        Seq::<u8>::empty()
    } else if raw.last() == 46 {
        mant_digits(raw.drop_last())
    } else {
        mant_digits(raw.drop_last()).push((raw.last() - 48) as u8)
    }
}

/// The number of digits after the dot.
pub open spec fn frac_count(raw: Seq<u8>) -> nat
    decreases raw.len(),
{
    if raw.len() == 0 {
        0
    } else if raw.last() == 46 {
        0
    } else {
        frac_count(raw.drop_last()) + 1
    }
}

/// An integer literal's value; one above `i64::MAX` reads as 0.
pub open spec fn int_literal(raw: Seq<u8>) -> i64 {
    let n = dval(mant_digits(raw));
    if n <= i64::MAX {
        n as i64
    } else {
        0
    }
}

pub open spec fn bytes_chars(w: Seq<u8>) -> Seq<char> {
    Seq::new(w.len(), |i: int| w[i] as char)
}

/// A token kind stands for a lexeme.
pub open spec fn kind_matches(k: TokenKind, lx: Lexeme) -> bool {
    match lx {
        Lexeme::Simple(t) => k == t,
        Lexeme::Text(cs) => k matches TokenKind::Str(st) && st@ == cs,
        Lexeme::Number(raw) => if has_dot(raw) {
            k matches TokenKind::Float(bits) && is_binary64_of(
                dval(mant_digits(raw)),
                frac_count(raw),
                bits,
            )
        } else {
            k == TokenKind::Int(int_literal(raw))
        },
        Lexeme::Word(w) => match keyword_spec(w) {
            Some(t) => k == t,
            None => k matches TokenKind::Ident(id) && id@ == bytes_chars(w),
        },
    }
}

// ---------------------------------------------------------------------------
// Token streams

/// The next token from `p`: its lexeme, start and end, or `None` for an
/// unclosed string literal. At the end of input it is `Eof` at the end.
pub open spec fn token_at(s: Seq<u8>, p: int) -> Option<(Lexeme, int, int)> {
    let st = skip_ws(s, p);
    if st >= s.len() {
        Some((Lexeme::Simple(TokenKind::Eof), st, st))
    } else {
        match scan(s, st) {
            Some((lx, e)) => Some((lx, st, e)),
            None => None,
        }
    }
}

pub proof fn lemma_scan_advances(s: Seq<u8>, p: int)
    requires
        0 <= p < s.len(),
    ensures
        scan(s, p) matches Some((_, e)) ==> p < e <= s.len(),
{
    let b = s[p];
    if b == 34 {
        lemma_string_body_bounds(s, p + 1);
    } else if is_digit(b) {
        lemma_number_end_bounds(s, p + 1, false);
    } else if is_ident_start(b) {
        lemma_ident_end_bounds(s, p + 1);
    }
}

pub proof fn lemma_string_body_bounds(s: Seq<u8>, p: int)
    requires
        0 <= p,
    ensures
        string_body(s, p) matches Some((_, e)) ==> p < e <= s.len(),
    decreases s.len() - p,
{
    if 0 <= p < s.len() {
        if s[p] == 92 && p + 1 < s.len() && (s[p + 1] == 110 || s[p + 1] == 116 || s[p + 1] == 34
            || s[p + 1] == 92) {
            lemma_string_body_bounds(s, p + 2);
        } else if s[p] != 34 {
            lemma_string_body_bounds(s, p + 1);
        }
    }
}

pub proof fn lemma_number_end_bounds(s: Seq<u8>, p: int, dot: bool)
    requires
        0 <= p <= s.len(),
    ensures
        p <= number_end(s, p, dot) <= s.len(),
    decreases s.len() - p,
{
    if p < s.len() && (is_digit(s[p]) || (s[p] == 46 && !dot)) {
        lemma_number_end_bounds(s, p + 1, if is_digit(s[p]) { dot } else { true });
    }
}

pub proof fn lemma_ident_end_bounds(s: Seq<u8>, p: int)
    requires
        0 <= p <= s.len(),
    ensures
        p <= ident_end(s, p) <= s.len(),
    decreases s.len() - p,
{
    if p < s.len() && is_ident_char(s[p]) {
        lemma_ident_end_bounds(s, p + 1);
    }
}

pub proof fn lemma_token_at_bounds(s: Seq<u8>, p: int)
    requires
        0 <= p <= s.len(),
    ensures
        token_at(s, p) matches Some((lx, st, e)) ==> p <= st <= e <= s.len() && (st < e || (st
            == s.len() && lx == Lexeme::Simple(TokenKind::Eof))),
{
    lemma_skip_ws_bounds(s, p);
    let st = skip_ws(s, p);
    if st < s.len() {
        lemma_scan_advances(s, st);
    }
}

/// The lexemes of the tokens from `p` up to and including the first `Eof`,
/// each with its start, or `None` when an unclosed string literal comes first.
pub open spec fn token_stream(s: Seq<u8>, p: int) -> Option<Seq<(Lexeme, int)>>
    decreases s.len() - p,
{
    if p < 0 || p > s.len() {
        None
    } else {
        match token_at(s, p) {
            None => None,
            Some((lx, st, e)) => {
                if lx == Lexeme::Simple(TokenKind::Eof) {
                    Some(seq![(lx, st)])
                } else {
                    proof {
                        lemma_token_at_bounds(s, p);
                    }
                    match token_stream(s, e) {
                        Some(rest) => Some(seq![(lx, st)] + rest),
                        None => None,
                    }
                }
            },
        }
    }
}

/// The position after the last token of the stream from `p`: where the
/// lexer stands once it has given the stream's `Eof`.
pub open spec fn stream_end(s: Seq<u8>, p: int) -> int
    decreases s.len() - p,
{
    if p < 0 || p > s.len() {
        p
    } else {
        match token_at(s, p) {
            None => p,
            Some((lx, st, e)) => {
                if lx == Lexeme::Simple(TokenKind::Eof) {
                    e
                } else {
                    proof {
                        lemma_token_at_bounds(s, p);
                    }
                    stream_end(s, e)
                }
            },
        }
    }
}

proof fn lemma_ident_end_at(s: Seq<u8>, q: int, e: int)
    requires
        0 < q <= e <= s.len(),
        forall|i: int|
            q <= i < e ==> ((65 <= #[trigger] s[i] <= 90) || (97 <= s[i] <= 122) || (48 <= s[i] <= 57)
                || s[i] == 95),
        e == s.len() || !((65 <= s[e] <= 90) || (97 <= s[e] <= 122) || (48 <= s[e] <= 57) || s[e]
            == 95),
    ensures
        ident_end(s, q) == e,
    decreases e - q,
{
    if q < e {
        assert((65 <= s[q] <= 90) || (97 <= s[q] <= 122) || (48 <= s[q] <= 57) || s[q] == 95);
        lemma_ident_end_at(s, q + 1, e);
    }
}

/// A word starts at an ASCII letter or `_` and runs over every ASCII
/// letter, digit and `_` after it: it ends exactly where such bytes stop.
pub proof fn lemma_word_is_maximal(s: Seq<u8>, p: int, e: int)
    requires
        0 <= p < e <= s.len(),
        (65 <= s[p] <= 90) || (97 <= s[p] <= 122) || s[p] == 95,
        forall|i: int|
            p < i < e ==> ((65 <= #[trigger] s[i] <= 90) || (97 <= s[i] <= 122) || (48 <= s[i] <= 57)
                || s[i] == 95),
        e == s.len() || !((65 <= s[e] <= 90) || (97 <= s[e] <= 122) || (48 <= s[e] <= 57) || s[e]
            == 95),
    ensures
        scan(s, p) == Some((Lexeme::Word(s.subrange(p, e)), e)),
{
    lemma_ident_end_at(s, p + 1, e);
}

proof fn lemma_number_end_at(s: Seq<u8>, q: int, e: int)
    requires
        0 < q <= e <= s.len(),
        forall|i: int| q <= i < e ==> 48 <= #[trigger] s[i] <= 57,
        e == s.len() || !(48 <= s[e] <= 57 || s[e] == 46),
    ensures
        number_end(s, q, false) == e,
    decreases e - q,
{
    if q < e {
        assert(48 <= s[q] <= 57);
        lemma_number_end_at(s, q + 1, e);
    }
}

/// A run of decimal digits with no dot after it is one integer token, over
/// the whole run, whose value is the number the digits write (or 0 when
/// that does not fit in `i64`).
pub proof fn lemma_integer_is_maximal(s: Seq<u8>, p: int, e: int)
    requires
        0 <= p < e <= s.len(),
        forall|i: int| p <= i < e ==> 48 <= #[trigger] s[i] <= 57,
        e == s.len() || !(48 <= s[e] <= 57 || s[e] == 46),
    ensures
        scan(s, p) == Some((Lexeme::Number(s.subrange(p, e)), e)),
        !has_dot(s.subrange(p, e)),
        dval(mant_digits(s.subrange(p, e))) == decimal_value(s.subrange(p, e)),
{
    assert(48 <= s[p] <= 57);
    if p + 1 < e {
        lemma_number_end_at(s, p + 1, e);
    }
    lemma_digit_run(s.subrange(p, e));
}

proof fn lemma_dotted_digits(u: Seq<u8>, v: Seq<u8>)
    requires
        forall|i: int| 0 <= i < u.len() ==> 48 <= #[trigger] u[i] <= 57,
        forall|i: int| 0 <= i < v.len() ==> 48 <= #[trigger] v[i] <= 57,
    ensures
        has_dot(u + seq![46u8] + v),
        frac_count(u + seq![46u8] + v) == v.len(),
        mant_digits(u + seq![46u8] + v) == mant_digits(u + v),
    decreases v.len(),
{
    let w = u + seq![46u8] + v;
    if v.len() == 0 {
        assert(w.drop_last() =~= u);
        assert(u + v =~= u);
    } else {
        let v2 = v.drop_last();
        assert forall|i: int| 0 <= i < v2.len() implies 48 <= #[trigger] v2[i] <= 57 by {
            assert(v2[i] == v[i]);
        }
        lemma_dotted_digits(u, v2);
        assert(w.drop_last() =~= u + seq![46u8] + v2);
        assert((u + v).drop_last() =~= u + v2);
        assert(w.last() == v.last());
        assert((u + v).last() == v.last());
        assert(v.last() == v[v.len() - 1]);
    }
}

proof fn lemma_number_end_dotted(s: Seq<u8>, q: int, d: int, e: int)
    requires
        0 < q <= d < e <= s.len(),
        forall|i: int| q <= i < d ==> 48 <= #[trigger] s[i] <= 57,
        s[d] == 46,
        forall|i: int| d < i < e ==> 48 <= #[trigger] s[i] <= 57,
        e == s.len() || !(48 <= s[e] <= 57 || s[e] == 46),
    ensures
        number_end(s, q, false) == e,
    decreases d - q,
{
    if q < d {
        assert(48 <= s[q] <= 57);
        lemma_number_end_dotted(s, q + 1, d, e);
    } else {
        assert(!is_digit(s[d]));
        lemma_number_end_after_dot(s, d + 1, e);
        assert(number_end(s, d, false) == number_end(s, d + 1, true));
    }
}

proof fn lemma_number_end_after_dot(s: Seq<u8>, q: int, e: int)
    requires
        0 < q <= e <= s.len(),
        forall|i: int| q <= i < e ==> 48 <= #[trigger] s[i] <= 57,
        e == s.len() || !(48 <= s[e] <= 57 || s[e] == 46),
    ensures
        number_end(s, q, true) == e,
    decreases e - q,
{
    if q < e {
        assert(48 <= s[q] <= 57);
        lemma_number_end_after_dot(s, q + 1, e);
    }
}

/// Digits, one dot, and digits again (possibly none) make one float token
/// over the whole run, stopping before any further digit or dot: its digits
/// are those before and after the dot, and as many as follow the dot are
/// fractional.
pub proof fn lemma_decimal_is_maximal(s: Seq<u8>, p: int, d: int, e: int)
    requires
        0 <= p < d < e <= s.len(),
        forall|i: int| p <= i < d ==> 48 <= #[trigger] s[i] <= 57,
        s[d] == 46,
        forall|i: int| d < i < e ==> 48 <= #[trigger] s[i] <= 57,
        e == s.len() || !(48 <= s[e] <= 57 || s[e] == 46),
    ensures
        scan(s, p) == Some((Lexeme::Number(s.subrange(p, e)), e)),
        has_dot(s.subrange(p, e)),
        frac_count(s.subrange(p, e)) == e - d - 1,
        dval(mant_digits(s.subrange(p, e))) == decimal_value(s.subrange(p, d) + s.subrange(d + 1, e)),
{
    assert(48 <= s[p] <= 57);
    lemma_number_end_dotted(s, p + 1, d, e);
    let u = s.subrange(p, d);
    let v = s.subrange(d + 1, e);
    assert(s.subrange(p, e) =~= u + seq![46u8] + v);
    assert forall|i: int| 0 <= i < u.len() implies 48 <= #[trigger] u[i] <= 57 by {
        assert(u[i] == s[p + i]);
    }
    assert forall|i: int| 0 <= i < v.len() implies 48 <= #[trigger] v[i] <= 57 by {
        assert(v[i] == s[d + 1 + i]);
    }
    lemma_dotted_digits(u, v);
    assert forall|i: int| 0 <= i < (u + v).len() implies 48 <= #[trigger] (u + v)[i] <= 57 by {
        if i < u.len() {
            assert((u + v)[i] == u[i]);
        } else {
            assert((u + v)[i] == v[i - u.len()]);
        }
    }
    lemma_digit_run(u + v);
}

/// The number that a run of ASCII decimal digits writes, most significant
/// first.
pub open spec fn decimal_value(w: Seq<u8>) -> nat
    decreases w.len(),
{
    if w.len() == 0 {
        0
    } else {
        decimal_value(w.drop_last()) * 10 + (w.last() - 48) as nat
    }
}

proof fn lemma_digit_run(w: Seq<u8>)
    requires
        forall|i: int| 0 <= i < w.len() ==> 48 <= #[trigger] w[i] <= 57,
    ensures
        !has_dot(w),
        dval(mant_digits(w)) == decimal_value(w),
        mant_digits(w).len() == w.len(),
    decreases w.len(),
{
    if w.len() > 0 {
        let d = w.drop_last();
        assert forall|i: int| 0 <= i < d.len() implies 48 <= #[trigger] d[i] <= 57 by {
            assert(d[i] == w[i]);
        }
        lemma_digit_run(d);
        assert(w.last() == w[w.len() - 1]);
        crate::decimal::lemma_dval_push(mant_digits(d), (w.last() - 48) as u8);
    }
}

/// The body of a string literal that stands for the bytes `x`: a backslash
/// and a double quote each behind a backslash, newline and tab written as
/// `\n` and `\t`, every other byte as itself.
pub open spec fn escaped(x: Seq<u8>) -> Seq<u8>
    decreases x.len(),
{
    if x.len() == 0 {
        Seq::empty()
    } else {
        let c = x[0];
        let head: Seq<u8> = if c == 92 {
            seq![92u8, 92u8]
        } else if c == 34 {
            seq![92u8, 34u8]
        } else if c == 10 {
            seq![92u8, 110u8]
        } else if c == 9 {
            seq![92u8, 116u8]
        } else {
            seq![c]
        };
        head + escaped(x.drop_first())
    }
}

proof fn lemma_body_round_trip(s: Seq<u8>, q: int, x: Seq<u8>)
    requires
        0 <= q,
        q + escaped(x).len() < s.len(),
        s.subrange(q, q + escaped(x).len()) == escaped(x),
        s[q + escaped(x).len()] == 34,
    ensures
        string_body(s, q) == Some((bytes_chars(x), q + escaped(x).len() + 1)),
    decreases x.len(),
{
    let k: int = escaped(x).len() as int;
    if x.len() == 0 {
        assert(bytes_chars(x) =~= Seq::<char>::empty());
    } else {
        let c = x[0];
        let rest = x.drop_first();
        let h: int = if c == 92 || c == 34 || c == 10 || c == 9 {
            2
        } else {
            1
        };
        let kr: int = escaped(rest).len() as int;
        assert(k == h + kr);
        assert(s.subrange(q + h, q + h + kr) =~= s.subrange(q, q + k).subrange(h, k));
        assert(escaped(x).subrange(h, k) =~= escaped(rest));
        assert(s[q] == escaped(x)[0]);
        if h == 2 {
            assert(s[q + 1] == escaped(x)[1]);
        }
        lemma_body_round_trip(s, q + h, rest);
        assert(bytes_chars(x) =~= seq![c as char] + bytes_chars(rest));
        if c == 10 {
            assert((10u8 as char) == '\n');
        }
        if c == 9 {
            assert((9u8 as char) == '\t');
        }
        if c == 92 {
            assert((92u8 as char) == '\\');
        }
        if c == 34 {
            assert((34u8 as char) == '"');
        }
    }
}

/// A string literal whose body is the escaped form of the bytes `x` lexes to
/// the text `x`, one character per byte, and ends after its closing quote:
/// escaping and lexing undo each other.
pub proof fn lemma_string_round_trip(s: Seq<u8>, p: int, x: Seq<u8>)
    requires
        0 <= p,
        p + 1 + escaped(x).len() < s.len(),
        s[p] == 34,
        s.subrange(p + 1, p + 1 + escaped(x).len()) == escaped(x),
        s[p + 1 + escaped(x).len()] == 34,
    ensures
        scan(s, p) == Some((Lexeme::Text(bytes_chars(x)), p + escaped(x).len() + 2)),
{
    lemma_body_round_trip(s, p + 1, x);
}

/// The token stream is what successive `next_token` calls give: the token at
/// `p`, then, unless it is `Eof`, the stream from where that token ends; and
/// the lexer ends where the `Eof` token ends.
pub proof fn lemma_stream_steps(s: Seq<u8>, p: int)
    requires
        0 <= p <= s.len(),
        token_stream(s, p) is Some,
    ensures
        token_at(s, p) matches Some((lx, st, e)) && token_stream(s, p).unwrap()[0] == (lx, st) && (
        if lx == Lexeme::Simple(TokenKind::Eof) {
            token_stream(s, p).unwrap().len() == 1 && stream_end(s, p) == e
        } else {
            token_stream(s, e) is Some && token_stream(s, p).unwrap().drop_first() == token_stream(
                s,
                e,
            ).unwrap() && stream_end(s, p) == stream_end(s, e)
        }),
{
    lemma_token_at_bounds(s, p);
    let (lx, st, e) = token_at(s, p).unwrap();
    if lx != Lexeme::Simple(TokenKind::Eof) {
        let rest = token_stream(s, e).unwrap();
        assert((seq![(lx, st)] + rest).drop_first() =~= rest);
    }
}

/// Where whitespace and comments stop: at the end, or at a byte that is
/// neither whitespace nor the start of a comment.
pub open spec fn skip_stopped(s: Seq<u8>, r: int) -> bool {
    r >= s.len() || (!is_ws(s[r]) && !starts_comment(s, r))
}

proof fn lemma_skip_ws_stops(s: Seq<u8>, p: int)
    requires
        0 <= p <= s.len(),
    ensures
        skip_stopped(s, skip_ws(s, p)),
    decreases s.len() - p, 1int,
{
    if p < s.len() {
        if is_ws(s[p]) {
            lemma_skip_ws_stops(s, p + 1);
        } else if starts_comment(s, p) {
            lemma_skip_comment_stops(s, p + 2);
        }
    }
}

proof fn lemma_skip_comment_stops(s: Seq<u8>, p: int)
    requires
        0 <= p <= s.len(),
    ensures
        skip_stopped(s, skip_comment(s, p)),
    decreases s.len() - p, 0int,
{
    if p < s.len() {
        if s[p] == 10 {
            lemma_skip_ws_stops(s, p + 1);
        } else {
            lemma_skip_comment_stops(s, p + 1);
        }
    }
}

/// Skipping whitespace and comments a second time changes nothing.
pub proof fn lemma_skip_ws_idempotent(s: Seq<u8>, p: int)
    requires
        0 <= p <= s.len(),
    ensures
        skip_ws(s, skip_ws(s, p)) == skip_ws(s, p),
{
    lemma_skip_ws_stops(s, p);
    lemma_skip_ws_bounds(s, p);
}

/// Where only whitespace and comments are left, the next token is `Eof` at
/// the end of input, the lexer moves to the end, and the token from there is
/// the same `Eof`: asking again changes nothing.
pub proof fn lemma_eof_repeats(s: Seq<u8>, p: int)
    requires
        0 <= p <= s.len(),
        skip_ws(s, p) == s.len(),
    ensures
        token_at(s, p) == Some((Lexeme::Simple(TokenKind::Eof), s.len() as int, s.len() as int)),
        token_at(s, s.len() as int) == token_at(s, p),
{
}

/// A token is the one that a lexeme at `start` gives.
pub open spec fn token_matches(t: Token, s: Seq<u8>, lx: Lexeme, start: int) -> bool {
    &&& kind_matches(t.kind, lx)
    &&& t.line == line_at(s, start)
    &&& t.col == col_at(s, start)
}

// ---------------------------------------------------------------------------
// The lexer

pub struct Lexer<'a> {
    src: &'a [u8],
    pos: usize,
    line: usize,
    col: usize,
}

impl<'a> Lexer<'a> {
    /// The bytes being lexed.
    pub closed spec fn source(&self) -> Seq<u8> {
        self.src@
    }

    /// The position of the next byte to read.
    pub closed spec fn position(&self) -> int {
        self.pos as int
    }

    /// The position is in the source, and the line and column are those of
    /// the position.
    pub closed spec fn wf(&self) -> bool {
        &&& self.pos <= self.src@.len()
        &&& self.src@.len() < usize::MAX
        &&& self.line == line_at(self.src@, self.pos as int)
        &&& self.col == col_at(self.src@, self.pos as int)
    }

    /// The line and column of the next byte.
    pub closed spec fn cur_line(&self) -> int {
        self.line as int
    }

    pub closed spec fn cur_col(&self) -> int {
        self.col as int
    }

    /// A well-formed lexer stands inside its source, and its line and column
    /// are those of its position.
    pub proof fn lemma_wf_bounds(&self)
        requires
            self.wf(),
        ensures
            0 <= self.position() <= self.source().len() < usize::MAX,
            self.tracks_position(),
    {
    }

    /// The lexer's line and column are those of its position.
    pub open spec fn tracks_position(&self) -> bool {
        &&& self.cur_line() == line_at(self.source(), self.position())
        &&& self.cur_col() == col_at(self.source(), self.position())
    }

    /// Whether the rest of the source lexes without an unclosed string literal.
    pub open spec fn lexable(&self) -> bool {
        token_stream(self.source(), self.position()) is Some
    }

    pub fn new(src: &'a str) -> (l: Self)
        requires
            src.spec_bytes().len() < usize::MAX,
        ensures
            l.wf(),
            l.tracks_position(),
            l.source() == src.spec_bytes(),
            l.position() == 0,
    {
        Self { src: src.as_bytes(), pos: 0, line: 1, col: 1 }
    }

    pub fn is_at_end(&self) -> (b: bool)
        requires
            self.wf(),
        ensures
            b == (self.position() >= self.source().len()),
    {
        self.pos >= self.src.len()
    }

    pub fn peek(&self) -> (b: Option<u8>)
        requires
            self.wf(),
        ensures
            b == if self.position() < self.source().len() {
                Some(self.source()[self.position()])
            } else {
                None
            },
    {
        if self.pos < self.src.len() {
            Some(self.src[self.pos])
        } else {
            None
        }
    }

    pub fn peek_next(&self) -> (b: Option<u8>)
        requires
            self.wf(),
        ensures
            b == if self.position() + 1 < self.source().len() {
                Some(self.source()[self.position() + 1])
            } else {
                None
            },
    {
        if self.pos + 1 < self.src.len() {
            Some(self.src[self.pos + 1])
        } else {
            None
        }
    }

    /// Consume one byte, keeping the line and column in step.
    pub fn advance(&mut self) -> (b: u8)
        requires
            old(self).wf(),
            old(self).position() < old(self).source().len(),
        ensures
            final(self).wf(),
            final(self).tracks_position(),
            final(self).source() == old(self).source(),
            final(self).position() == old(self).position() + 1,
            b == old(self).source()[old(self).position()],
    {
        let b = self.src[self.pos];
        proof {
            lemma_position_bounds(self.src@, self.pos as int);
        }
        self.pos += 1;
        if b == 10 {
            self.line += 1;
            self.col = 1;
        } else {
            self.col += 1;
        }
        b
    }

    /// Skip whitespace and line comments.
    pub fn skip_whitespace(&mut self)
        requires
            old(self).wf(),
        ensures
            final(self).wf(),
            final(self).tracks_position(),
            final(self).source() == old(self).source(),
            final(self).position() == skip_ws(old(self).source(), old(self).position()),
    {
        let ghost target = skip_ws(self.src@, self.pos as int);
        loop
            invariant
                self.wf(),
                self.src@ == old(self).src@,
                skip_ws(self.src@, self.pos as int) == target,
            ensures
                self.wf(),
                self.src@ == old(self).src@,
                self.pos == target,
            decreases self.src@.len() - self.pos,
        {
            let ghost iter_start = self.pos as int;
            while self.pos < self.src.len() && byte_is_ws(self.src[self.pos])
                invariant
                    self.wf(),
                    self.src@ == old(self).src@,
                    skip_ws(self.src@, self.pos as int) == target,
                    self.pos >= iter_start,
                decreases self.src@.len() - self.pos,
            {
                self.advance();
            }
            if self.pos + 1 < self.src.len() && self.src[self.pos] == 47 && self.src[self.pos + 1]
                == 47 {
                let ghost cpos = self.pos as int;
                assert(skip_comment(self.src@, cpos + 2) == target);
                self.advance();
                self.advance();
                while self.pos < self.src.len()
                    invariant_except_break
                        skip_comment(self.src@, self.pos as int) == target,
                    invariant
                        self.wf(),
                        self.src@ == old(self).src@,
                        self.pos >= cpos + 2,
                    ensures
                        self.wf(),
                        self.src@ == old(self).src@,
                        self.pos >= cpos + 2,
                        skip_ws(self.src@, self.pos as int) == target,
                    decreases self.src@.len() - self.pos,
                {
                    let ghost before = self.pos as int;
                    let b = self.advance();
                    if b == 10 {
                        assert(skip_comment(self.src@, before) == skip_ws(self.src@, before + 1));
                        break;
                    }
                    assert(skip_comment(self.src@, before) == skip_comment(self.src@, before + 1));
                }
            } else {
                break;
            }
        }
    }

    /// The body of a string literal, the opening quote already read; `None`
    /// when the input ends before the closing quote.
    fn lex_string(&mut self) -> (r: Option<TokenKind>)
        requires
            old(self).wf(),
        ensures
            final(self).wf(),
            final(self).source() == old(self).source(),
            match string_body(old(self).source(), old(self).position()) {
                Some((text, e)) => r matches Some(k) && k matches TokenKind::Str(st) && st@ == text
                    && final(self).position() == e,
                None => r is None,
            },
    {
        let ghost p0 = self.pos as int;
        let ghost full = string_body(self.src@, p0);
        let mut s = String::new();
        loop
            invariant
                self.wf(),
                self.src@ == old(self).src@,
                p0 <= self.pos,
                p0 == old(self).pos,
                full == string_body(self.src@, p0),
                full is Some <==> string_body(self.src@, self.pos as int) is Some,
                full is Some ==> full.unwrap().1 == string_body(self.src@, self.pos as int).unwrap().1
                    && full.unwrap().0 == s@ + string_body(self.src@, self.pos as int).unwrap().0,
            decreases self.src@.len() - self.pos,
        {
            let ghost before = s@;
            match self.peek() {
                None => {
                    assert(string_body(self.src@, self.pos as int) is None);
                    assert(full is None);
                    assert(self.src@ == old(self).src@);
                    assert(p0 == old(self).pos);
                    assert(string_body(old(self).source(), old(self).position()) is None);
                    return None;
                },
                Some(34) => {
                    let ghost at = self.pos as int;
                    assert(string_body(self.src@, at) == Some((Seq::<char>::empty(), at + 1)));
                    self.advance();
                    proof {
                        assert(s@ + Seq::<char>::empty() =~= s@);
                    }
                    return Some(TokenKind::Str(s));
                },
                Some(92) => {
                    self.advance();
                    match self.peek() {
                        Some(110) => {
                            self.advance();
                            push_char(&mut s, '\n');
                        },
                        Some(116) => {
                            self.advance();
                            push_char(&mut s, '\t');
                        },
                        Some(34) => {
                            self.advance();
                            push_char(&mut s, '"');
                        },
                        Some(92) => {
                            self.advance();
                            push_char(&mut s, '\\');
                        },
                        _ => {},
                    }
                    proof {
                        if full is Some {
                            let rest = string_body(self.src@, self.pos as int).unwrap().0;
                            assert(before + (seq![escape_char(self.src@[self.pos - 1])] + rest)
                                =~= before.push(escape_char(self.src@[self.pos - 1])) + rest);
                        }
                    }
                },
                Some(c) => {
                    push_char(&mut s, c as char);
                    self.advance();
                    proof {
                        if full is Some {
                            let rest = string_body(self.src@, self.pos as int).unwrap().0;
                            assert(before + (seq![c as char] + rest) =~= s@ + rest);
                        }
                    }
                },
            }
        }
    }

    /// The rest of a number, its first digit already read.
    fn lex_number(&mut self, first: u8) -> (k: TokenKind)
        requires
            old(self).wf(),
            old(self).position() >= 1,
            is_digit(first),
            old(self).source()[old(self).position() - 1] == first,
        ensures
            final(self).wf(),
            final(self).source() == old(self).source(),
            final(self).position() == number_end(old(self).source(), old(self).position(), false),
            kind_matches(
                k,
                Lexeme::Number(
                    old(self).source().subrange(old(self).position() - 1, final(self).position()),
                ),
            ),
    {
        let ghost start = self.pos - 1;
        let ghost target = number_end(self.src@, self.pos as int, false);
        let mut digits: Vec<u8> = Vec::new();
        digits.push(first - 48);
        let mut frac: usize = 0;
        let mut is_float = false;
        proof {
            let raw = self.src@.subrange(start, self.pos as int);
            assert(raw.drop_last() =~= Seq::<u8>::empty());
            assert(raw.last() == first);
            assert(mant_digits(Seq::<u8>::empty()) =~= Seq::<u8>::empty());
            assert(mant_digits(raw) =~= seq![(first - 48) as u8]);
            assert(!has_dot(Seq::<u8>::empty()));
            assert(!has_dot(raw));
        }
        loop
            invariant
                self.wf(),
                self.src@ == old(self).src@,
                0 <= start,
                start + 1 <= self.pos,
                start == old(self).pos - 1,
                number_end(self.src@, self.pos as int, is_float) == target,
                digits@ == mant_digits(self.src@.subrange(start, self.pos as int)),
                all_digits(digits@),
                frac <= digits@.len(),
                digits@.len() <= self.pos - start,
                is_float == has_dot(self.src@.subrange(start, self.pos as int)),
                is_float ==> frac == frac_count(self.src@.subrange(start, self.pos as int)),
            ensures
                self.wf(),
                self.src@ == old(self).src@,
                self.pos == target,
                start == old(self).pos - 1,
                digits@ == mant_digits(self.src@.subrange(start, self.pos as int)),
                all_digits(digits@),
                frac <= digits@.len(),
                is_float == has_dot(self.src@.subrange(start, self.pos as int)),
                is_float ==> frac == frac_count(self.src@.subrange(start, self.pos as int)),
            decreases self.src@.len() - self.pos,
        {
            let ghost raw0 = self.src@.subrange(start, self.pos as int);
            let ghost p_before = self.pos as int;
            match self.peek() {
                Some(b) => {
                    assert(p_before < self.src@.len());
                    assert(b == self.src@[p_before]);
                    if byte_is_digit(b) {
                        digits.push(b - 48);
                        if is_float {
                            frac = frac + 1;
                        }
                        self.advance();
                        proof {
                            assert(self.pos == p_before + 1);
                            assert(self.src@ == old(self).src@);
                            let raw = self.src@.subrange(start, self.pos as int);
                            assert(raw.drop_last() =~= raw0);
                            assert(raw.last() == b);
                        }
                    } else if b == 46 && !is_float {
                        is_float = true;
                        frac = 0;
                        self.advance();
                        proof {
                            assert(self.pos == p_before + 1);
                            let raw = self.src@.subrange(start, self.pos as int);
                            assert(raw.drop_last() =~= raw0);
                            assert(raw.last() == b);
                        }
                    } else {
                        break;
                    }
                },
                None => {
                    break;
                },
            }
        }
        if is_float {
            TokenKind::Float(binary64_bits(&digits, frac))
        } else {
            match digits_value_below(&digits, 0x8000_0000_0000_0000u64) {
                Some(v) => TokenKind::Int(v as i64),
                None => TokenKind::Int(0),
            }
        }
    }

    /// The rest of a word, its first byte already read.
    fn lex_ident(&mut self) -> (k: TokenKind)
        requires
            old(self).wf(),
            old(self).position() >= 1,
        ensures
            final(self).wf(),
            final(self).source() == old(self).source(),
            final(self).position() == ident_end(old(self).source(), old(self).position()),
            kind_matches(
                k,
                Lexeme::Word(
                    old(self).source().subrange(old(self).position() - 1, final(self).position()),
                ),
            ),
    {
        let start = self.pos - 1;
        let ghost target = ident_end(self.src@, self.pos as int);
        while self.pos < self.src.len() && byte_is_ident_char(self.src[self.pos])
            invariant
                self.wf(),
                self.src@ == old(self).src@,
                start + 1 <= self.pos,
                ident_end(self.src@, self.pos as int) == target,
            decreases self.src@.len() - self.pos,
        {
            self.advance();
        }
        let word = vstd::slice::slice_subrange(self.src, start, self.pos);
        match keyword_bytes(word) {
            Some(k) => k,
            None => {
                let mut s = String::new();
                let mut i: usize = 0;
                while i < word.len()
                    invariant
                        i <= word@.len(),
                        s@ =~= bytes_chars(word@.take(i as int)),
                    decreases word@.len() - i,
                {
                    push_char(&mut s, word[i] as char);
                    i = i + 1;
                }
                proof {
                    assert(word@.take(word@.len() as int) =~= word@);
                }
                TokenKind::Ident(s)
            },
        }
    }

    /// The next token, or `None` when it is a string literal that is not closed.
    fn try_next_token(&mut self) -> (r: Option<Token>)
        requires
            old(self).wf(),
        ensures
            final(self).wf(),
            final(self).source() == old(self).source(),
            match token_at(old(self).source(), old(self).position()) {
                Some((lx, st, e)) => r matches Some(t) && token_matches(t, old(self).source(), lx, st)
                    && final(self).position() == e,
                None => r is None,
            },
    {
        self.skip_whitespace();
        if self.is_at_end() {
            return Some(Token::new(TokenKind::Eof, self.line, self.col));
        }
        let line = self.line;
        let col = self.col;
        let b = self.advance();
        let kind = if b == 43 {
            TokenKind::Plus
        } else if b == 45 {
            TokenKind::Minus
        } else if b == 42 {
            TokenKind::Star
        } else if b == 47 {
            TokenKind::Slash
        } else if b == 37 {
            TokenKind::Percent
        } else if b == 40 {
            TokenKind::LParen
        } else if b == 41 {
            TokenKind::RParen
        } else if b == 123 {
            TokenKind::LBrace
        } else if b == 125 {
            TokenKind::RBrace
        } else if b == 44 {
            TokenKind::Comma
        } else if b == 59 {
            TokenKind::Semicolon
        } else if b == 58 {
            TokenKind::Colon
        } else if b == 33 {
            if self.peek() == Some(61u8) {
                self.advance();
                TokenKind::BangEqual
            } else {
                TokenKind::Bang
            }
        } else if b == 61 {
            if self.peek() == Some(61u8) {
                self.advance();
                TokenKind::EqualEqual
            } else {
                TokenKind::Equal
            }
        } else if b == 60 {
            if self.peek() == Some(61u8) {
                self.advance();
                TokenKind::LessEqual
            } else {
                TokenKind::Less
            }
        } else if b == 62 {
            if self.peek() == Some(61u8) {
                self.advance();
                TokenKind::GreaterEqual
            } else {
                TokenKind::Greater
            }
        } else if b == 38 {
            if self.peek() == Some(38u8) {
                self.advance();
                TokenKind::AmpAmp
            } else {
                TokenKind::Eof
            }
        } else if b == 124 {
            if self.peek() == Some(124u8) {
                self.advance();
                TokenKind::PipePipe
            } else {
                TokenKind::Eof
            }
        } else if b == 34 {
            match self.lex_string() {
                Some(k) => k,
                None => {
                    return None;
                },
            }
        } else if byte_is_digit(b) {
            self.lex_number(b)
        } else if byte_is_ident_start(b) {
            self.lex_ident()
        } else {
            TokenKind::Eof
        };
        Some(Token::new(kind, line, col))
    }

    /// The next token. The token at the position must not be a string
    /// literal that the input ends inside.
    pub fn next_token(&mut self) -> (t: Token)
        requires
            old(self).wf(),
            token_at(old(self).source(), old(self).position()) is Some,
        ensures
            final(self).wf(),
            final(self).tracks_position(),
            final(self).source() == old(self).source(),
            token_at(old(self).source(), old(self).position()) matches Some((lx, st, e))
                && token_matches(t, old(self).source(), lx, st) && final(self).position() == e,
    {
        match self.try_next_token() {
            Some(t) => t,
            None => {
                proof {
                    assert(false);
                }
                Token::new(TokenKind::Eof, 0, 0)
            },
        }
    }

    /// All tokens up to and including the first `Eof`, or `None` when the
    /// input holds a string literal that is not closed.
    fn try_tokenize(&mut self) -> (r: Option<Vec<Token>>)
        requires
            old(self).wf(),
        ensures
            final(self).wf(),
            final(self).source() == old(self).source(),
            r is Some ==> final(self).position() == stream_end(old(self).source(), old(self).position()),
            match token_stream(old(self).source(), old(self).position()) {
                Some(ss) => r matches Some(tokens) && tokens@.len() == ss.len() && forall|i: int|
                    0 <= i < ss.len() ==> token_matches(
                        #[trigger] tokens@[i],
                        old(self).source(),
                        ss[i].0,
                        ss[i].1,
                    ),
                None => r is None,
            },
    {
        let ghost s = self.src@;
        let ghost p0 = self.pos as int;
        let ghost mut done: Seq<(Lexeme, int)> = Seq::empty();
        let mut tokens: Vec<Token> = Vec::new();
        assert(token_stream(s, p0) == prepend_stream(done, token_stream(s, self.pos as int))) by {
            if let Some(rest) = token_stream(s, p0) {
                assert(done + rest =~= rest);
            }
        }
        loop
            invariant
                self.wf(),
                self.src@ == s,
                s == old(self).src@,
                p0 == old(self).pos,
                tokens@.len() == done.len(),
                forall|i: int|
                    0 <= i < done.len() ==> token_matches(#[trigger] tokens@[i], s, done[i].0, done[i].1),
                token_stream(s, p0) == prepend_stream(done, token_stream(s, self.pos as int)),
                stream_end(s, p0) == stream_end(s, self.pos as int),
            decreases s.len() - self.pos,
        {
            let ghost pos_before = self.pos as int;
            proof {
                lemma_token_at_bounds(s, pos_before);
            }
            let tok = match self.try_next_token() {
                Some(t) => t,
                None => {
                    assert(token_stream(s, pos_before) is None);
                    return None;
                },
            };
            let done_now = crate::token::kind_is_eof(&tok.kind);
            let ghost ta = token_at(s, pos_before).unwrap();
            proof {
                lemma_eof_lexeme(tok.kind, ta.0);
            }
            tokens.push(tok);
            let ghost done_before = done;
            proof {
                done = done.push((ta.0, ta.1));
                assert forall|i: int| 0 <= i < done.len() implies token_matches(
                    #[trigger] tokens@[i],
                    s,
                    done[i].0,
                    done[i].1,
                ) by {
                    if i < done.len() - 1 {
                        assert(done[i] == done_before[i]);
                    }
                }
            }
            if done_now {
                proof {
                    assert(token_stream(s, pos_before) == Some(seq![(ta.0, ta.1)]));
                    assert(done_before + seq![(ta.0, ta.1)] =~= done);
                }
                return Some(tokens);
            }
            proof {
                assert(token_stream(s, pos_before) == prepend_stream(
                    seq![(ta.0, ta.1)],
                    token_stream(s, self.pos as int),
                ));
                if let Some(rest) = token_stream(s, self.pos as int) {
                    assert(done_before + (seq![(ta.0, ta.1)] + rest) =~= done + rest);
                }
            }
        }
    }

    /// All tokens up to and including the first `Eof`. The rest of the input
    /// must hold no string literal that is not closed.
    pub fn tokenize(&mut self) -> (tokens: Vec<Token>)
        requires
            old(self).wf(),
            old(self).lexable(),
        ensures
            token_stream(old(self).source(), old(self).position()) matches Some(ss)
                && tokens@.len() == ss.len() && (forall|i: int|
                0 <= i < ss.len() ==> token_matches(
                    #[trigger] tokens@[i],
                    old(self).source(),
                    ss[i].0,
                    ss[i].1,
                )),
            tokens@.len() >= 1,
            tokens@.last().kind is Eof,
            forall|i: int| 0 <= i < tokens@.len() - 1 ==> !(#[trigger] tokens@[i].kind is Eof),
            final(self).wf(),
            final(self).tracks_position(),
            final(self).source() == old(self).source(),
            final(self).position() == stream_end(old(self).source(), old(self).position()),
    {
        let ghost s = self.src@;
        let ghost p0 = self.pos as int;
        proof {
            lemma_stream_eof_last(s, p0);
        }
        match self.try_tokenize() {
            Some(t) => {
                proof {
                    let ss = token_stream(s, p0).unwrap();
                    assert forall|i: int| 0 <= i < t@.len() implies (#[trigger] t@[i].kind is Eof)
                        == (ss[i].0 == Lexeme::Simple(TokenKind::Eof)) by {
                        assert(token_matches(t@[i], s, ss[i].0, ss[i].1));
                        lemma_eof_lexeme(t@[i].kind, ss[i].0);
                    }
                }
                t
            },
            None => {
                proof {
                    assert(false);
                }
                Vec::new()
            },
        }
    }
}

/// `done` followed by the stream, if there is one.
pub open spec fn prepend_stream(done: Seq<(Lexeme, int)>, rest: Option<Seq<(Lexeme, int)>>) -> Option<
    Seq<(Lexeme, int)>,
> {
    match rest {
        Some(r) => Some(done + r),
        None => None,
    }
}

/// A token kind is `Eof` exactly when it stands for the `Eof` lexeme.
pub proof fn lemma_eof_lexeme(k: TokenKind, lx: Lexeme)
    requires
        kind_matches(k, lx),
    ensures
        (k is Eof) == (lx == Lexeme::Simple(TokenKind::Eof)),
{
    match lx {
        Lexeme::Word(w) => {
            if keyword_spec(w) is Some {
                assert(!(keyword_spec(w).unwrap() is Eof));
            }
        },
        _ => {},
    }
}

/// A token stream ends with its only `Eof`.
pub proof fn lemma_stream_eof_last(s: Seq<u8>, p: int)
    ensures
        token_stream(s, p) matches Some(ss) ==> ss.len() >= 1 && ss.last().0 == Lexeme::Simple(
            TokenKind::Eof,
        ) && forall|i: int| 0 <= i < ss.len() - 1 ==> #[trigger] ss[i].0 != Lexeme::Simple(
            TokenKind::Eof,
        ),
    decreases s.len() - p,
{
    if 0 <= p <= s.len() {
        if let Some((lx, st, e)) = token_at(s, p) {
            if lx != Lexeme::Simple(TokenKind::Eof) {
                lemma_token_at_bounds(s, p);
                lemma_stream_eof_last(s, e);
                if let Some(rest) = token_stream(s, e) {
                    let ss = token_stream(s, p).unwrap();
                    assert(ss =~= seq![(lx, st)] + rest);
                    assert forall|i: int| 0 <= i < ss.len() - 1 implies #[trigger] ss[i].0
                        != Lexeme::Simple(TokenKind::Eof) by {
                        if i > 0 {
                            assert(ss[i] == rest[i - 1]);
                        }
                    }
                }
            }
        }
    }
}

/// Whether `src` lexes without an unclosed string literal.
pub open spec fn source_lexable(src: &str) -> bool {
    token_stream(src.spec_bytes(), 0) is Some
}

/// `t` is the token sequence of `src`: one token for each lexeme, of the
/// matching kind and at its line and column.
pub open spec fn lexes_to(src: &str, t: Seq<Token>) -> bool {
    &&& token_stream(src.spec_bytes(), 0) matches Some(ss)
    &&& t.len() == ss.len()
    &&& forall|i: int|
        0 <= i < ss.len() ==> token_matches(#[trigger] t[i], src.spec_bytes(), ss[i].0, ss[i].1)
}

/// Whether `src` lexes without an unclosed string literal; the lexer's
/// `tokenize` needs it.
pub fn lexes_cleanly(src: &str) -> (b: bool)
    requires
        src.spec_bytes().len() < usize::MAX,
    ensures
        b == source_lexable(src),
{
    let mut l = Lexer::new(src);
    l.try_tokenize().is_some()
}

} // verus!
