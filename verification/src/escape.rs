//! Percent-encoding of the values written into a path.

use vstd::prelude::*;
use vstd::string::*;
use vstd::utf8::*;

verus! {

/// The upper-case hexadecimal digit of a value below sixteen.
pub open spec fn hex_digit(n: int) -> char {
    if n < 10 {
        (48 + n) as char
    } else {
        (55 + n) as char
    }
}

/// The three characters that stand for an escaped byte: `%` and the two
/// hexadecimal digits of the byte.
pub open spec fn escape_of(byte: u8) -> Seq<char> {
    seq!['%', hex_digit(byte as int / 16), hex_digit(byte as int % 16)]
}

/// `percent_encoding::percent_encode_byte` returns `%` followed by the two
/// upper-case hexadecimal digits of the byte, for every byte.
pub assume_specification[ percent_encoding::percent_encode_byte ](byte: u8) -> (text: &'static str)
    ensures
        text@ == escape_of(byte),
;

/// The bytes that stay as they are: ASCII letters and digits, `-` and `_`.
pub open spec fn is_unreserved(byte: u8) -> bool {
    ||| 0x41 <= byte <= 0x5a
    ||| 0x61 <= byte <= 0x7a
    ||| 0x30 <= byte <= 0x39
    ||| byte == 0x2d
    ||| byte == 0x5f
}

/// What one byte of a value becomes in a path.
pub open spec fn escape_byte(byte: u8) -> Seq<char> {
    if is_unreserved(byte) {
        seq![byte as char]
    } else {
        escape_of(byte)
    }
}

/// What a run of bytes becomes in a path.
pub open spec fn escape_bytes(bytes: Seq<u8>) -> Seq<char>
    decreases bytes.len(),
{
    if bytes.len() == 0 {
        Seq::empty()
    } else {
        escape_bytes(bytes.drop_last()) + escape_byte(bytes.last())
    }
}

/// The percent-encoded form of a text: each byte of its UTF-8 encoding
/// stays or is escaped.
pub open spec fn escaped(text: Seq<char>) -> Seq<char> {
    escape_bytes(encode_utf8(text))
}

/// The characters that an encoded value is made of.
pub open spec fn is_escaped_char(c: char) -> bool {
    ||| 'A' <= c <= 'Z'
    ||| 'a' <= c <= 'z'
    ||| '0' <= c <= '9'
    ||| c == '-'
    ||| c == '_'
    ||| c == '%'
}

/// Whether a text is made of the characters of encoded values alone.
pub open spec fn is_escaped(text: Seq<char>) -> bool {
    forall|i: int| 0 <= i < text.len() ==> is_escaped_char(#[trigger] text[i])
}

/// Whether a byte stays as it is.
fn keeps(byte: u8) -> (stays: bool)
    ensures
        stays == is_unreserved(byte),
{
    (0x41 <= byte && byte <= 0x5a) || (0x61 <= byte && byte <= 0x7a) || (0x30 <= byte && byte
        <= 0x39) || byte == 0x2d || byte == 0x5f
}

/// Encodes a value for its place in a path.
pub fn percent_encode(text: &str) -> (encoded: String)
    ensures
        encoded@ == escaped(text@),
{
    let bytes = text.as_bytes();
    let mut encoded = String::new();
    let mut i: usize = 0;
    proof {
        assert(bytes@.take(0) == Seq::<u8>::empty());
    }
    while i < bytes.len()
        invariant
            i <= bytes.len(),
            encoded@ == escape_bytes(bytes@.take(i as int)),
        decreases bytes.len() - i,
    {
        let byte = bytes[i];
        proof {
            let now = bytes@.take(i + 1);
            assert(now.drop_last() == bytes@.take(i as int));
            assert(now.last() == byte);
        }
        if keeps(byte) {
            encoded.push(byte as char);
        } else {
            encoded.append(percent_encoding::percent_encode_byte(byte));
        }
        i += 1;
    }
    proof {
        assert(bytes@.take(bytes.len() as int) == bytes@);
    }
    encoded
}

/// An encoded value holds only letters, digits, `-`, `_` and `%`: whatever
/// the value was, its encoded form is safe in a path and holds no slash.
pub proof fn lemma_escaped_is_escaped(text: Seq<char>)
    ensures
        is_escaped(escaped(text)),
{
    lemma_escape_bytes_is_escaped(encode_utf8(text));
}

proof fn lemma_escape_bytes_is_escaped(bytes: Seq<u8>)
    ensures
        is_escaped(escape_bytes(bytes)),
    decreases bytes.len(),
{
    if bytes.len() > 0 {
        lemma_escape_bytes_is_escaped(bytes.drop_last());
        let byte = bytes.last();
        let piece = escape_byte(byte);
        assert(is_escaped(piece)) by {
            if is_unreserved(byte) {
                assert(is_escaped_char(byte as char));
            } else {
                let hi = byte as int / 16;
                let lo = byte as int % 16;
                assert(is_escaped_char(hex_digit(hi)));
                assert(is_escaped_char(hex_digit(lo)));
            }
        }
    }
}

/// Whether a text holds only the characters that stay as they are: ASCII
/// letters and digits, `-` and `_`.
pub open spec fn is_plain(text: Seq<char>) -> bool {
    forall|i: int|
        0 <= i < text.len() ==> is_escaped_char(#[trigger] text[i]) && text[i] != '%'
}

proof fn lemma_escape_bytes_plain(bytes: Seq<u8>, text: Seq<char>)
    requires
        bytes.len() == text.len(),
        forall|i: int| 0 <= i < text.len() ==> text[i] as u8 == bytes[i],
        is_plain(text),
    ensures
        escape_bytes(bytes) == text,
    decreases bytes.len(),
{
    if bytes.len() > 0 {
        lemma_escape_bytes_plain(bytes.drop_last(), text.drop_last());
        let c = text.last();
        let b = bytes.last();
        assert(is_escaped_char(text[text.len() - 1]));
        assert(c as u8 == b);
        assert(is_unreserved(b));
        assert(b as char == c);
        assert(text.drop_last() + seq![c] =~= text);
    } else {
        assert(text =~= Seq::<char>::empty());
    }
}

/// A text of letters, digits, `-` and `_` is its own encoded form.
pub proof fn lemma_escaped_plain(text: Seq<char>)
    requires
        is_plain(text),
    ensures
        escaped(text) == text,
{
    assert(is_ascii_chars(text));
    is_ascii_chars_encode_utf8(text);
    lemma_escape_bytes_plain(encode_utf8(text), text);
}

} // verus!
