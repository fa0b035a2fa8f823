//! Hexadecimal text: two digits for each byte. The conversions themselves
//! are done by the `hex` crate; this file states what they return.

use vstd::prelude::*;
use vstd::utf8::{encode_utf8, is_ascii_chars, is_ascii_chars_encode_utf8};

verus! {

/// The value of the hexadecimal digit `c`, in either case; `None` if `c`
/// is no digit.
pub open spec fn hex_digit_value(c: u8) -> Option<u8> {
    if 0x30 <= c <= 0x39 {
        Some((c - 0x30) as u8)
    } else if 0x41 <= c <= 0x46 {
        Some((c - 0x41 + 10) as u8)
    } else if 0x61 <= c <= 0x66 {
        Some((c - 0x61 + 10) as u8)
    } else {
        None
    }
}

/// The lower-case hexadecimal digit for `value`, which is below 16.
pub open spec fn hex_digit(value: u8) -> u8 {
    if value < 10 {
        (0x30 + value) as u8
    } else {
        (0x61 + value - 10) as u8
    }
}

/// Whether `text` is an even number of hexadecimal digits.
pub open spec fn is_hex_text(text: Seq<u8>) -> bool {
    &&& text.len() % 2 == 0
    &&& forall|i: int| 0 <= i < text.len() ==> hex_digit_value(#[trigger] text[i]) is Some
}

/// The byte that the two digits `high` and `low` stand for.
pub open spec fn hex_pair_value(high: u8, low: u8) -> u8 {
    (16 * hex_digit_value(high).unwrap() + hex_digit_value(low).unwrap()) as u8
}

/// The bytes that the hexadecimal text `text` stands for.
pub open spec fn hex_decoded(text: Seq<u8>) -> Seq<u8> {
    Seq::new(text.len() / 2, |i: int| hex_pair_value(text[2 * i], text[2 * i + 1]))
}

/// The lower-case hexadecimal text of `bytes`.
pub open spec fn hex_encoded(bytes: Seq<u8>) -> Seq<u8> {
    Seq::new(
        2 * bytes.len(),
        |i: int| if i % 2 == 0 { hex_digit(bytes[i / 2] / 16) } else { hex_digit(bytes[i / 2] % 16) },
    )
}

/// The characters of a text given by its bytes, one character for each byte.
pub open spec fn ascii_text(bytes: Seq<u8>) -> Seq<char> {
    Seq::new(bytes.len(), |i: int| bytes[i] as char)
}

/// The texts of `lines`, each as its characters.
pub open spec fn lines_text(lines: Seq<String>) -> Seq<Seq<char>> {
    Seq::new(lines.len(), |i: int| lines[i]@)
}

/// The texts of `lines`, each as the bytes that it is stored in.
pub open spec fn lines_bytes(lines: Seq<String>) -> Seq<Seq<u8>> {
    Seq::new(lines.len(), |i: int| encode_utf8(lines[i]@))
}

/// The error of `hex::decode`. Nothing is said of what it holds.
#[verifier::external_type_specification]
#[verifier::external_body]
pub struct ExFromHexError(hex::FromHexError);

/// Calls `hex::decode`. It succeeds exactly on an even number of
/// hexadecimal digits, and then returns one byte for each pair of digits:
/// sixteen times the value of the first digit plus the value of the second.
#[verifier::external_body]
pub(crate) fn hex_decode(text: &[u8]) -> (res: Result<Vec<u8>, hex::FromHexError>)
    ensures
        res is Ok <==> is_hex_text(text@),
        res is Ok ==> res.unwrap()@ == hex_decoded(text@),
{
    hex::decode(text)
}

/// Calls `hex::encode`. It returns two lower-case hexadecimal digits for
/// each byte, the digit of the upper four bits first.
#[verifier::external_body]
pub(crate) fn hex_encode(bytes: &[u8]) -> (text: String)
    ensures
        text@ == ascii_text(hex_encoded(bytes@)),
{
    hex::encode(bytes)
}

/// Encoding bytes gives hexadecimal text, and decoding it gives the bytes
/// back.
pub proof fn lemma_hex_round_trip(bytes: Seq<u8>)
    ensures
        is_hex_text(hex_encoded(bytes)),
        hex_decoded(hex_encoded(bytes)) == bytes,
{
    let text = hex_encoded(bytes);
    assert forall|i: int| 0 <= i < text.len() implies hex_digit_value(#[trigger] text[i]) is Some by {
        let b = bytes[i / 2];
        assert(0 <= b / 16 < 16 && 0 <= b % 16 < 16);
    }
    assert forall|k: int| 0 <= k < bytes.len() implies hex_decoded(text)[k] == bytes[k] by {
        let b = bytes[k];
        assert((2 * k) / 2 == k && (2 * k + 1) / 2 == k);
        assert((2 * k) % 2 == 0 && (2 * k + 1) % 2 == 1);
        assert(text[2 * k] == hex_digit(b / 16));
        assert(text[2 * k + 1] == hex_digit(b % 16));
        assert(hex_digit_value(hex_digit(b / 16)) == Some(b / 16));
        assert(hex_digit_value(hex_digit(b % 16)) == Some(b % 16));
        assert(16 * (b / 16) + b % 16 == b);
    }
    assert(hex_decoded(text) =~= bytes);
}

/// Hexadecimal text made by encoding is plain ASCII.
pub proof fn lemma_hex_encoded_is_ascii(bytes: Seq<u8>)
    ensures
        forall|i: int| 0 <= i < hex_encoded(bytes).len() ==> #[trigger] hex_encoded(bytes)[i] < 0x80,
{
    assert forall|i: int| 0 <= i < hex_encoded(bytes).len() implies #[trigger] hex_encoded(
        bytes,
    )[i] < 0x80 by {
        let b = bytes[i / 2];
        assert(0 <= b / 16 < 16 && 0 <= b % 16 < 16);
    }
}

/// A text of ASCII characters is stored as its characters, one byte each.
pub proof fn lemma_ascii_text_bytes(bytes: Seq<u8>)
    requires
        forall|i: int| 0 <= i < bytes.len() ==> #[trigger] bytes[i] < 0x80,
    ensures
        encode_utf8(ascii_text(bytes)) == bytes,
{
    let chars = ascii_text(bytes);
    assert(is_ascii_chars(chars)) by {
        assert forall|i: int| 0 <= i < chars.len() implies '\0' <= #[trigger] chars[i]
            <= '\u{7f}' by {
            assert(chars[i] == bytes[i] as char);
        }
    }
    is_ascii_chars_encode_utf8(chars);
    assert forall|i: int| 0 <= i < bytes.len() implies encode_utf8(chars)[i] == bytes[i] by {
        assert(chars[i] == bytes[i] as char);
        assert(chars[i] as u8 == encode_utf8(chars)[i]);
    }
    assert(encode_utf8(chars) =~= bytes);
}

/// Putting another digit in one place of a hexadecimal text changes the
/// byte that the place belongs to, and no other.
pub proof fn lemma_hex_decoded_update(text: Seq<u8>, at: int, digit: u8)
    requires
        is_hex_text(text),
        0 <= at < text.len(),
        hex_digit_value(digit) is Some,
    ensures
        is_hex_text(text.update(at, digit)),
        hex_decoded(text.update(at, digit)) == hex_decoded(text).update(
            at / 2,
            hex_decoded(text.update(at, digit))[at / 2],
        ),
        hex_digit_value(digit) != hex_digit_value(text[at]) ==> hex_decoded(
            text.update(at, digit),
        )[at / 2] != hex_decoded(text)[at / 2],
{
    let changed = text.update(at, digit);
    assert forall|i: int| 0 <= i < changed.len() implies hex_digit_value(
        #[trigger] changed[i],
    ) is Some by {
        if i != at {
            assert(changed[i] == text[i]);
        }
    }
    let k = at / 2;
    assert(hex_digit_value(text[2 * k]) is Some);
    assert(hex_digit_value(text[2 * k + 1]) is Some);
    assert(hex_decoded(changed) =~= hex_decoded(text).update(k, hex_decoded(changed)[k]));
}

} // verus!
