//! Percent-encoding of keys and values, as the `urlencoding` crate does it.
//!
//! Keys are listed percent-encoded on request, and the `key=value` bodies of
//! writes arrive percent-encoded. Both directions are calls into `urlencoding`;
//! this module states what those calls return and proves that decoding undoes
//! encoding.

use vstd::prelude::*;
use vstd::utf8::*;

verus! {

/// The bytes that `urlencoding` leaves as they are: ASCII letters, digits and `-`, `.`, `_`, `~`.
pub open spec fn is_unreserved(b: u8) -> bool {
    ||| 48 <= b <= 57
    ||| 65 <= b <= 90
    ||| 97 <= b <= 122
    ||| b == 45
    ||| b == 46
    ||| b == 95
    ||| b == 126
}

/// The upper-case hexadecimal digit for `d < 16`.
pub open spec fn hex_digit(d: u8) -> char
    recommends
        d < 16,
{
    if d < 10 {
        (48 + d) as char
    } else {
        (55 + d) as char
    }
}

/// What one byte becomes: itself if unreserved, else `%` and two upper-case hex digits.
pub open spec fn encode_byte(b: u8) -> Seq<char> {
    if is_unreserved(b) {
        seq![b as char]
    } else {
        seq!['%', hex_digit(b / 16), hex_digit(b % 16)]
    }
}

/// Percent-encoding of a byte sequence, byte by byte.
pub open spec fn percent_encode_bytes(bytes: Seq<u8>) -> Seq<char>
    decreases bytes.len(),
{
    if bytes.len() == 0 {
        Seq::empty()
    } else {
        encode_byte(bytes[0]) + percent_encode_bytes(bytes.drop_first())
    }
}

/// Percent-encoding of a string: of the bytes of its UTF-8 encoding.
pub open spec fn url_encode(s: Seq<char>) -> Seq<char> {
    percent_encode_bytes(encode_utf8(s))
}

/// The value of a hexadecimal digit, either case, or `None` for any other byte.
pub open spec fn hex_value(b: u8) -> Option<u8> {
    if 48 <= b <= 57 {
        Some((b - 48) as u8)
    } else if 65 <= b <= 70 {
        Some((b - 55) as u8)
    } else if 97 <= b <= 102 {
        Some((b - 87) as u8)
    } else {
        None
    }
}

/// Percent-decoding of a byte sequence: a `%` followed by two hex digits
/// becomes the byte they spell; every other byte, a stray `%` among them,
/// stays as it is (`+` is not turned into a space).
pub open spec fn percent_decode_bytes(bytes: Seq<u8>) -> Seq<u8>
    decreases bytes.len(),
{
    if bytes.len() == 0 {
        Seq::empty()
    } else if bytes[0] == 37 && bytes.len() >= 3 && hex_value(bytes[1]) is Some && hex_value(
        bytes[2],
    ) is Some {
        seq![(hex_value(bytes[1])->0 * 16 + hex_value(bytes[2])->0) as u8] + percent_decode_bytes(
            bytes.subrange(3, bytes.len() as int),
        )
    } else {
        seq![bytes[0]] + percent_decode_bytes(bytes.drop_first())
    }
}

/// Percent-decoding of a string: the decoded bytes read as UTF-8, or `None`
/// where they are not valid UTF-8.
pub open spec fn url_decode(s: Seq<char>) -> Option<Seq<char>> {
    let bytes = percent_decode_bytes(encode_utf8(s));
    if valid_utf8(bytes) {
        Some(decode_utf8(bytes))
    } else {
        None
    }
}

/// `urlencoding::encode`: percent-encodes every byte of the UTF-8 encoding of
/// `s` but ASCII letters, digits and `-`, `_`, `.`, `~`, with upper-case hex digits.
#[verifier::external_body]
pub(crate) fn encode_component(s: &str) -> (res: String)
    ensures
        res@ == url_encode(s@),
{
    urlencoding::encode(s).into_owned()
}

/// `urlencoding::decode`: percent-decodes `s` (a `%` not followed by two hex
/// digits is kept literally) and reads the bytes as UTF-8; `None` where the
/// crate returns its `FromUtf8Error`.
#[verifier::external_body]
pub(crate) fn decode_component(s: &str) -> (res: Option<String>)
    ensures
        res is Some <==> url_decode(s@) is Some,
        res matches Some(r) ==> url_decode(s@) == Some(r@),
{
    match urlencoding::decode(s) {
        Ok(decoded) => Some(decoded.into_owned()),
        Err(_) => None,
    }
}

/// The bytes of a sequence of ASCII characters.
pub open spec fn ascii_bytes(chars: Seq<char>) -> Seq<u8> {
    Seq::new(chars.len(), |i: int| chars[i] as u8)
}

proof fn lemma_hex_digit(d: u8)
    requires
        d < 16,
    ensures
        '\0' <= hex_digit(d) <= '\u{7f}',
        hex_value(hex_digit(d) as u8) == Some(d),
{
}

/// Decoding the bytes of one encoded byte, followed by anything, yields that
/// byte followed by the decoding of the rest.
proof fn lemma_decode_encoded_byte(b: u8, rest: Seq<u8>)
    ensures
        is_ascii_chars(encode_byte(b)),
        percent_decode_bytes(ascii_bytes(encode_byte(b)) + rest) == seq![b] + percent_decode_bytes(rest),
{
    let x = ascii_bytes(encode_byte(b));
    let xs = x + rest;
    if is_unreserved(b) {
        assert((b as char) as u8 == b);
        assert(xs[0] == b);
        assert(xs.drop_first() =~= rest);
    } else {
        lemma_hex_digit(b / 16);
        lemma_hex_digit(b % 16);
        assert(xs[0] == 37);
        assert(xs[1] == hex_digit(b / 16) as u8);
        assert(xs[2] == hex_digit(b % 16) as u8);
        assert(xs.subrange(3, xs.len() as int) =~= rest);
        assert((b / 16) * 16 + b % 16 == b);
    }
}

proof fn lemma_ascii_bytes_concat(a: Seq<char>, b: Seq<char>)
    ensures
        ascii_bytes(a + b) == ascii_bytes(a) + ascii_bytes(b),
{
    assert(ascii_bytes(a + b) =~= ascii_bytes(a) + ascii_bytes(b));
}

/// Percent-decoding undoes percent-encoding, byte for byte, and the encoding is ASCII.
pub proof fn lemma_percent_decode_inverts_encode(bytes: Seq<u8>)
    ensures
        is_ascii_chars(percent_encode_bytes(bytes)),
        percent_decode_bytes(ascii_bytes(percent_encode_bytes(bytes))) == bytes,
    decreases bytes.len(),
{
    if bytes.len() == 0 {
        assert(ascii_bytes(Seq::<char>::empty()) =~= Seq::<u8>::empty());
    } else {
        let head = encode_byte(bytes[0]);
        let tail = percent_encode_bytes(bytes.drop_first());
        lemma_percent_decode_inverts_encode(bytes.drop_first());
        lemma_decode_encoded_byte(bytes[0], ascii_bytes(tail));
        lemma_ascii_bytes_concat(head, tail);
        assert(seq![bytes[0]] + bytes.drop_first() =~= bytes);
        assert forall|i: int| 0 <= i < (head + tail).len() implies '\0' <= #[trigger] (head
            + tail)[i] <= '\u{7f}' by {
            if i < head.len() {
                assert((head + tail)[i] == head[i]);
            } else {
                assert((head + tail)[i] == tail[i - head.len()]);
            }
        }
    }
}

/// Decoding a percent-encoded string gives back the string: what `list_keys`
/// hands out encoded, a client reads back by decoding.
pub proof fn lemma_url_decode_inverts_encode(s: Seq<char>)
    ensures
        url_decode(url_encode(s)) == Some(s),
{
    let e = url_encode(s);
    lemma_percent_decode_inverts_encode(encode_utf8(s));
    is_ascii_chars_encode_utf8(e);
    assert(encode_utf8(e) =~= ascii_bytes(e));
    encode_utf8_valid_utf8(s);
    encode_utf8_decode_utf8(s);
}

/// A character that percent-encoding can write: `%` or an unreserved ASCII character.
pub open spec fn is_encoded_char(c: char) -> bool {
    c == '%' || (c <= '\u{7f}' && is_unreserved(c as u8))
}

/// Percent-encoding writes `%` and unreserved ASCII characters only; so no
/// encoded string holds `=` (written `%3D`) or a line break (written `%0A`).
pub proof fn lemma_encoding_chars(bytes: Seq<u8>)
    ensures
        forall|i: int| 0 <= i < percent_encode_bytes(bytes).len() ==> is_encoded_char(#[trigger] percent_encode_bytes(bytes)[i]),
        forall|i: int| 0 <= i < percent_encode_bytes(bytes).len() ==> #[trigger] percent_encode_bytes(bytes)[i] != '=',
        forall|i: int| 0 <= i < percent_encode_bytes(bytes).len() ==> #[trigger] percent_encode_bytes(bytes)[i] != '\n',
    decreases bytes.len(),
{
    if bytes.len() > 0 {
        lemma_encoding_chars(bytes.drop_first());
        let head = encode_byte(bytes[0]);
        let tail = percent_encode_bytes(bytes.drop_first());
        if !is_unreserved(bytes[0]) {
            lemma_hex_digit(bytes[0] / 16);
            lemma_hex_digit(bytes[0] % 16);
        } else {
            assert((bytes[0] as char) as u8 == bytes[0]);
        }
        assert forall|i: int| 0 <= i < (head + tail).len() implies is_encoded_char(#[trigger] (head + tail)[i]) by {
            if i >= head.len() {
                assert((head + tail)[i] == tail[i - head.len()]);
            }
        }
        assert forall|i: int| 0 <= i < (head + tail).len() implies #[trigger] (head + tail)[i] != '=' && (head + tail)[i] != '\n' by {
            assert(is_encoded_char((head + tail)[i]));
        }
    }
}

/// No byte of the UTF-8 encoding of a character other than `%` is the byte of `%`.
proof fn lemma_encode_scalar_avoids_percent(c: char)
    requires
        c != '%',
    ensures
        forall|i: int| 0 <= i < encode_scalar(c as u32).len() ==> #[trigger] encode_scalar(c as u32)[i] != 37,
{
    let v = c as u32;
    assert(forall|x: u8| #![auto] (0x80u8 | x) != 37u8 && (0xC0u8 | x) != 37u8 && (0xE0u8 | x) != 37u8 && (0xF0u8 | x) != 37u8) by (bit_vector);
    if has_width_1_encoding(v) {
        assert(v != 37);
        assert((v & 0x7F) as u8 != 37u8) by (bit_vector)
            requires
                v <= 0x7F && v != 37,
        ;
    }
}

/// No byte of the UTF-8 encoding of a string without `%` is the byte of `%`.
proof fn lemma_encode_utf8_avoids_percent(s: Seq<char>)
    requires
        forall|i: int| 0 <= i < s.len() ==> #[trigger] s[i] != '%',
    ensures
        forall|i: int| 0 <= i < encode_utf8(s).len() ==> #[trigger] encode_utf8(s)[i] != 37,
    decreases s.len(),
{
    if s.len() > 0 {
        lemma_encode_scalar_avoids_percent(s[0]);
        let rest = s.drop_first();
        assert forall|i: int| 0 <= i < rest.len() implies #[trigger] rest[i] != '%' by {
            assert(rest[i] == s[i + 1]);
        }
        lemma_encode_utf8_avoids_percent(rest);
        let head = encode_scalar(s[0] as u32);
        let tail = encode_utf8(rest);
        assert forall|i: int| 0 <= i < (head + tail).len() implies #[trigger] (head + tail)[i] != 37 by {
            if i >= head.len() {
                assert((head + tail)[i] == tail[i - head.len()]);
            }
        }
    }
}

/// Percent-decoding keeps bytes without `%` as they are.
proof fn lemma_percent_decode_keeps_plain_bytes(bytes: Seq<u8>)
    requires
        forall|i: int| 0 <= i < bytes.len() ==> #[trigger] bytes[i] != 37,
    ensures
        percent_decode_bytes(bytes) == bytes,
    decreases bytes.len(),
{
    if bytes.len() > 0 {
        let rest = bytes.drop_first();
        assert forall|i: int| 0 <= i < rest.len() implies #[trigger] rest[i] != 37 by {
            assert(rest[i] == bytes[i + 1]);
        }
        lemma_percent_decode_keeps_plain_bytes(rest);
        assert(seq![bytes[0]] + rest =~= bytes);
    }
}

/// Decoding keeps a string without `%` exactly as it is, whatever other
/// characters it holds (`+`, `!`, spaces, non-ASCII letters...).
pub proof fn lemma_url_decode_keeps_plain_text(s: Seq<char>)
    requires
        forall|i: int| 0 <= i < s.len() ==> #[trigger] s[i] != '%',
    ensures
        url_decode(s) == Some(s),
{
    lemma_encode_utf8_avoids_percent(s);
    lemma_percent_decode_keeps_plain_bytes(encode_utf8(s));
    encode_utf8_valid_utf8(s);
    encode_utf8_decode_utf8(s);
}

} // verus!
