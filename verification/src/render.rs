//! Rendering byte strings for people to read.

use crate::text::{decode_lossy, text_of};
use vstd::prelude::*;

verus! {

/// The character of the hexadecimal digit `d`, in lower case.
pub open spec fn hex_char(d: int) -> char {
    if d < 10 {
        (48 + d) as u8 as char
    } else {
        (87 + d) as u8 as char
    }
}

/// The character of the hexadecimal digit `d`, in lower case.
pub fn hex_digit(d: u8) -> (c: char)
    requires
        d < 16,
    ensures
        c == hex_char(d as int),
{
    if d < 10 {
        (48 + d) as char
    } else {
        (87 + d) as char
    }
}

/// Whether a byte-string literal shows the byte `b` as the character with
/// that code: the visible ASCII characters U+0021 to U+007E, the blank, and
/// the tab, line feed, form feed and carriage return.
pub open spec fn shown_plain(b: u8) -> bool {
    0x21 <= b <= 0x7e || b == 0x20 || b == 0x09 || b == 0x0a || b == 0x0c || b == 0x0d
}

/// How a byte-string literal shows the byte `b`: as its character, or as
/// `\x` and its two hexadecimal digits.
pub open spec fn literal_byte(b: u8) -> Seq<char> {
    if shown_plain(b) {
        seq![b as char]
    } else {
        seq!['\\', 'x', hex_char(b as int / 16), hex_char(b as int % 16)]
    }
}

/// How a byte-string literal shows the bytes `bytes`, one after the other.
pub open spec fn literal_body(bytes: Seq<u8>) -> Seq<char>
    decreases bytes.len(),
{
    if bytes.len() == 0 {
        Seq::empty()
    } else {
        literal_body(bytes.drop_last()) + literal_byte(bytes.last())
    }
}

/// The byte-string literal of `bytes`: `b"`, the bytes, and `"`.
pub open spec fn byte_literal(bytes: Seq<u8>) -> Seq<char> {
    seq!['b', '"'] + literal_body(bytes) + seq!['"']
}

/// Writes `bytes` as a byte-string literal: visible ASCII characters and
/// ASCII white space as they are, every other byte as `\x` and two
/// hexadecimal digits.
pub fn b_as_literal(bytes: &[u8]) -> (formatted: String)
    ensures
        formatted@ == byte_literal(bytes@),
{
    let mut formatted = String::new();
    formatted.push('b');
    formatted.push('"');
    let mut i: usize = 0;
    assert(formatted@ =~= seq!['b', '"'] + literal_body(bytes@.take(0)));
    while i < bytes.len()
        invariant
            i <= bytes.len(),
            formatted@ == seq!['b', '"'] + literal_body(bytes@.take(i as int)),
        decreases bytes.len() - i,
    {
        let byte = bytes[i];
        proof {
            assert(bytes@.take(i + 1).drop_last() == bytes@.take(i as int));
        }
        if (byte >= 0x21 && byte <= 0x7e) || byte == 0x20 || byte == 0x09 || byte == 0x0a || byte
            == 0x0c || byte == 0x0d {
            formatted.push(byte as char);
        } else {
            formatted.push('\\');
            formatted.push('x');
            formatted.push(hex_digit(byte / 16));
            formatted.push(hex_digit(byte % 16));
        }
        i += 1;
        assert(formatted@ =~= seq!['b', '"'] + literal_body(bytes@.take(i as int)));
    }
    assert(bytes@.take(bytes.len() as int) == bytes@);
    formatted.push('"');
    formatted
}

/// Whether `c` is a control character: U+0000 to U+001F, or U+007F to
/// U+009F.
pub open spec fn is_control(c: char) -> bool {
    '\u{0}' <= c <= '\u{1f}' || '\u{7f}' <= c <= '\u{9f}'
}

/// How a text shows the character `c`: a control character as `\u` and its
/// code in four hexadecimal digits, any other as it is.
pub open spec fn escaped_char(c: char) -> Seq<char> {
    if is_control(c) {
        seq!['\\', 'u', '0', '0', hex_char(c as int / 16), hex_char(c as int % 16)]
    } else {
        seq![c]
    }
}

/// The text `s` with its control characters escaped.
pub open spec fn escaped(s: Seq<char>) -> Seq<char>
    decreases s.len(),
{
    if s.len() == 0 {
        Seq::empty()
    } else {
        escaped(s.drop_last()) + escaped_char(s.last())
    }
}

/// A hexadecimal digit is no control character.
pub proof fn lemma_hex_char(d: int)
    requires
        0 <= d < 16,
    ensures
        !is_control(hex_char(d)),
{
}

/// A text with its control characters escaped holds no control character:
/// no line feed and no carriage return among them.
pub proof fn lemma_escaped_visible(s: Seq<char>)
    ensures
        forall|i: int| 0 <= i < escaped(s).len() ==> !is_control(#[trigger] escaped(s)[i]),
    decreases s.len(),
{
    if s.len() > 0 {
        let front = escaped(s.drop_last());
        let c = s.last();
        let shown = escaped_char(c);
        lemma_escaped_visible(s.drop_last());
        if is_control(c) {
            lemma_hex_char(c as int / 16);
            lemma_hex_char(c as int % 16);
        }
        assert forall|i: int| 0 <= i < escaped(s).len() implies !is_control(
            #[trigger] escaped(s)[i],
        ) by {
            if i < front.len() {
                assert(escaped(s)[i] == front[i]);
            } else {
                assert(escaped(s)[i] == shown[i - front.len()]);
            }
        }
    }
}

/// Replaces each control character of `s` by `\u` and its code in four
/// hexadecimal digits.
pub fn replace_control_characters(s: &str) -> (shown: String)
    ensures
        shown@ == escaped(s@),
{
    let chars = crate::text::chars_of(s);
    let mut shown = String::new();
    let mut i: usize = 0;
    while i < chars.len()
        invariant
            i <= chars.len(),
            chars@ == s@,
            shown@ == escaped(s@.take(i as int)),
        decreases chars.len() - i,
    {
        let c = chars[i];
        proof {
            assert(s@.take(i + 1).drop_last() == s@.take(i as int));
        }
        let ghost before = shown@;
        if (c >= '\u{0}' && c <= '\u{1f}') || (c >= '\u{7f}' && c <= '\u{9f}') {
            let code: u32 = c as u32;
            shown.push('\\');
            shown.push('u');
            shown.push('0');
            shown.push('0');
            shown.push(hex_digit((code / 16) as u8));
            shown.push(hex_digit((code % 16) as u8));
        } else {
            shown.push(c);
        }
        assert(shown@ =~= before + escaped_char(c));
        i += 1;
    }
    assert(s@.take(s@.len() as int) == s@);
    shown
}

/// The rendering of the bytes of a token: their text, with control
/// characters escaped.
pub open spec fn rendered(bytes: Seq<u8>) -> Seq<char> {
    escaped(text_of(bytes))
}

/// Renders the bytes of a token for a listing: as text, with U+FFFD for what
/// is no valid UTF-8, and with control characters escaped.
pub fn render_token(t: &[u8]) -> (shown: String)
    ensures
        shown@ == rendered(t@),
{
    let text = decode_lossy(t);
    replace_control_characters(text.as_str())
}

} // verus!

