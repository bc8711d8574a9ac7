//! Character-level text helpers: ASCII upper-casing for symbol
//! normalization, and the MarkdownV2 escaping applied to outgoing
//! messages.

use vstd::prelude::*;

verus! {

/// Relies on `String::push`: appends the given character to the end of
/// the string.
pub assume_specification[ String::push ](s: &mut String, c: char)
    ensures
        final(s)@ == old(s)@.push(c),
;

/// A lower-case ASCII letter turned upper-case; every other character is
/// left as it is.
pub open spec fn upper_char(c: char) -> char {
    if 97 <= c as u32 <= 122 {
        (((c as u32) - 32) as u8) as char
    } else {
        c
    }
}

/// The whole sequence upper-cased character by character.
pub open spec fn upper_chars(s: Seq<char>) -> Seq<char> {
    Seq::new(s.len(), |i: int| upper_char(s[i]))
}

/// Upper-case the ASCII letters of a symbol as typed by the user.
pub fn to_upper_ascii(s: &str) -> (r: String)
    ensures
        r@ == upper_chars(s@),
{
    let n = s.unicode_len();
    let mut r = String::new();
    let mut i: usize = 0;
    while i < n
        invariant
            i <= n,
            n == s@.len(),
            r@ == upper_chars(s@).take(i as int),
        decreases n - i,
    {
        let c = s.get_char(i);
        let code = c as u32;
        let u: char = if 97 <= code && code <= 122 {
            ((code - 32) as u8) as char
        } else {
            c
        };
        r.push(u);
        proof {
            assert(r@ =~= upper_chars(s@).take(i + 1));
        }
        i = i + 1;
    }
    proof {
        assert(upper_chars(s@).take(n as int) =~= upper_chars(s@));
    }
    r
}

/// The characters MarkdownV2 requires a backslash before. The starred
/// emphasis characters `*` and `_` are deliberately left unescaped: the
/// renderer uses them for styling.
pub open spec fn needs_escape(c: char) -> bool {
    c == '\\' || c == '[' || c == ']' || c == '(' || c == ')' || c == '~' || c == '>' || c == '#'
        || c == '+' || c == '-' || c == '=' || c == '{' || c == '}' || c == '.' || c == '!' || c
        == '"'
}

/// A sequence with a backslash put before every escapable character.
pub open spec fn escaped_chars(s: Seq<char>) -> Seq<char>
    decreases s.len(),
{
    if s.len() == 0 {
        Seq::empty()
    } else {
        escaped_chars(s.drop_last()) + (if needs_escape(s.last()) {
            seq!['\\', s.last()]
        } else {
            seq![s.last()]
        })
    }
}

fn char_needs_escape(c: char) -> (r: bool)
    ensures
        r == needs_escape(c),
{
    c == '\\' || c == '[' || c == ']' || c == '(' || c == ')' || c == '~' || c == '>' || c == '#'
        || c == '+' || c == '-' || c == '=' || c == '{' || c == '}' || c == '.' || c == '!' || c
        == '"'
}

/// Escape a message for the MarkdownV2 renderer: a backslash goes before
/// every structural character, while `*` and `_` stay as styling.
pub fn escape_markdown_v2(text: String) -> (r: String)
    ensures
        r@ == escaped_chars(text@),
{
    let n = text.as_str().unicode_len();
    let mut r = String::new();
    let mut i: usize = 0;
    while i < n
        invariant
            i <= n,
            n == text@.len(),
            r@ == escaped_chars(text@.take(i as int)),
        decreases n - i,
    {
        let c = text.as_str().get_char(i);
        if char_needs_escape(c) {
            r.push('\\');
        }
        r.push(c);
        proof {
            let pre = text@.take(i + 1);
            assert(pre.drop_last() =~= text@.take(i as int));
            assert(pre.last() == text@[i as int]);
            assert(r@ =~= escaped_chars(text@.take(i + 1)));
        }
        i = i + 1;
    }
    proof {
        assert(text@.take(n as int) =~= text@);
    }
    r
}

} // verus!
