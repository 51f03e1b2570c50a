//! Small string helpers with contracts over the strings' views.

use vstd::prelude::*;
use vstd::string::{StrSliceExecFns, StringExecFns};

verus! {

/// Calls std's `String::push`, which its documentation describes as
/// appending the character to the end of the string. The contract claims
/// just that: the new text is the old text with `c` after it.
#[verifier::external_body]
pub fn push_char(s: &mut String, c: char)
    ensures
        final(s)@ == old(s)@.push(c),
{
    s.push(c)
}

/// The decimal digits of `n`, most significant first.
pub open spec fn decimal_text(n: nat) -> Seq<char>
    decreases n,
{
    if n < 10 {
        seq![digit_char(n)]
    } else {
        decimal_text(n / 10).push(digit_char(n % 10))
    }
}

pub open spec fn digit_char(d: nat) -> char {
    ((48 + d) as u8) as char
}

/// The decimal text of `n`.
pub fn usize_text(n: usize) -> (s: String)
    ensures
        s@ == decimal_text(n as nat),
    decreases n,
{
    if n < 10 {
        let mut s = String::new();
        push_char(&mut s, ((48 + n) as u8) as char);
        s
    } else {
        let mut s = usize_text(n / 10);
        push_char(&mut s, ((48 + n % 10) as u8) as char);
        s
    }
}

/// Whether two string slices hold the same characters.
pub fn str_eq(a: &str, b: &str) -> (r: bool)
    ensures
        r == (a@ == b@),
{
    let n = a.unicode_len();
    if n != b.unicode_len() {
        return false;
    }
    let mut i: usize = 0;
    while i < n
        invariant
            n == a@.len(),
            n == b@.len(),
            i <= n,
            forall|j: int| 0 <= j < i ==> a@[j] == b@[j],
        decreases n - i,
    {
        if a.get_char(i) != b.get_char(i) {
            return false;
        }
        i = i + 1;
    }
    assert(a@ =~= b@);
    true
}

/// `a` followed by `b` followed by `c`.
pub fn concat3(a: &str, b: &str, c: &str) -> (r: String)
    ensures
        r@ == a@ + b@ + c@,
{
    let mut s = String::from_str(a);
    s.append(b);
    s.append(c);
    s
}

/// The decimal text of `n`.
pub fn u64_text(n: u64) -> (s: String)
    ensures
        s@ == decimal_text(n as nat),
    decreases n,
{
    if n < 10 {
        let mut s = String::new();
        push_char(&mut s, ((48 + n) as u8) as char);
        s
    } else {
        let mut s = u64_text(n / 10);
        push_char(&mut s, ((48 + n % 10) as u8) as char);
        s
    }
}

/// The decimal text of a signed integer, with '-' in front when negative.
pub open spec fn int_text(n: int) -> Seq<char> {
    if n < 0 {
        seq!['-'] + decimal_text((-n) as nat)
    } else {
        decimal_text(n as nat)
    }
}

pub fn i64_text(n: i64) -> (s: String)
    ensures
        s@ == int_text(n as int),
{
    if n < 0 {
        let m: u64 = if n == i64::MIN {
            0x8000_0000_0000_0000u64
        } else {
            (-n) as u64
        };
        let digits = u64_text(m);
        let mut s = String::new();
        push_char(&mut s, '-');
        s.append(digits.as_str());
        s
    } else {
        u64_text(n as u64)
    }
}

pub open spec fn hex_digit(d: nat) -> char {
    if d < 10 {
        ((48 + d) as u8) as char
    } else {
        ((87 + d) as u8) as char
    }
}

/// The lower-case hexadecimal digits of `n`, most significant first.
pub open spec fn hex_text(n: nat) -> Seq<char>
    decreases n,
{
    if n < 16 {
        seq![hex_digit(n)]
    } else {
        hex_text(n / 16).push(hex_digit(n % 16))
    }
}

pub fn u32_hex(n: u32) -> (s: String)
    ensures
        s@ == hex_text(n as nat),
    decreases n,
{
    let d = n % 16;
    let c = if d < 10 {
        ((48 + d) as u8) as char
    } else {
        ((87 + d) as u8) as char
    };
    if n < 16 {
        let mut s = String::new();
        push_char(&mut s, c);
        s
    } else {
        let mut s = u32_hex(n / 16);
        push_char(&mut s, c);
        s
    }
}

/// A character as a string's debug text shows it: the usual escapes for
/// NUL, tab, carriage return, newline, backslash and the double quote,
/// `\u{..}` in hexadecimal for the other characters below U+0100 that are
/// not printable (the C0 and C1 controls, DEL, U+00A0 and U+00AD), and the
/// character itself otherwise.
pub open spec fn char_debug(c: char) -> Seq<char> {
    if c == '\0' {
        seq!['\\', '0']
    } else if c == '\t' {
        seq!['\\', 't']
    } else if c == '\r' {
        seq!['\\', 'r']
    } else if c == '\n' {
        seq!['\\', 'n']
    } else if c == '\\' {
        seq!['\\', '\\']
    } else if c == '"' {
        seq!['\\', '"']
    } else if is_escaped_control(c) {
        seq!['\\', 'u', '{'] + hex_text(c as nat) + seq!['}']
    } else {
        seq![c]
    }
}

/// The characters below U+0100 that debug text writes as `\u{..}`.
pub open spec fn is_escaped_control(c: char) -> bool {
    (c as u32) < 0x20 || (0x7f <= (c as u32) && (c as u32) <= 0xa0) || (c as u32) == 0xad
}

/// The characters of `s`, each as `char_debug` shows it.
pub open spec fn str_debug(s: Seq<char>) -> Seq<char>
    decreases s.len(),
{
    if s.len() == 0 {
        Seq::empty()
    } else {
        str_debug(s.drop_last()) + char_debug(s.last())
    }
}

fn push_char_debug(s: &mut String, c: char)
    ensures
        final(s)@ == old(s)@ + char_debug(c),
{
    let code = c as u32;
    if c == '\0' {
        push_char(s, '\\');
        push_char(s, '0');
    } else if c == '\t' {
        push_char(s, '\\');
        push_char(s, 't');
    } else if c == '\r' {
        push_char(s, '\\');
        push_char(s, 'r');
    } else if c == '\n' {
        push_char(s, '\\');
        push_char(s, 'n');
    } else if c == '\\' {
        push_char(s, '\\');
        push_char(s, '\\');
    } else if c == '"' {
        push_char(s, '\\');
        push_char(s, '"');
    } else if code < 0x20 || (0x7f <= code && code <= 0xa0) || code == 0xad {
        push_char(s, '\\');
        push_char(s, 'u');
        push_char(s, '{');
        let h = u32_hex(code);
        s.append(h.as_str());
        push_char(s, '}');
    } else {
        push_char(s, c);
    }
    assert(final(s)@ =~= old(s)@ + char_debug(c)) by {
        if code < 0x20 || (0x7f <= code && code <= 0xa0) || code == 0xad {
        }
    }
}

/// `s` in double quotes with its characters escaped as `char_debug` shows them.
pub fn debug_text(s: &str) -> (r: String)
    ensures
        r@ == seq!['"'] + str_debug(s@) + seq!['"'],
{
    let n = s.unicode_len();
    let mut r = String::new();
    push_char(&mut r, '"');
    let mut i: usize = 0;
    while i < n
        invariant
            n == s@.len(),
            i <= n,
            r@ == seq!['"'] + str_debug(s@.take(i as int)),
        decreases n - i,
    {
        let c = s.get_char(i);
        let ghost before = r@;
        push_char_debug(&mut r, c);
        proof {
            assert(s@.take(i + 1).drop_last() =~= s@.take(i as int));
            assert(s@.take(i + 1).last() == c);
            assert(r@ =~= seq!['"'] + str_debug(s@.take(i + 1)));
        }
        i = i + 1;
    }
    proof {
        assert(s@.take(n as int) =~= s@);
    }
    push_char(&mut r, '"');
    r
}

} // verus!
