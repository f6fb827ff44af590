//! Hexadecimal text, as the `hex` crate reads and writes it.
use vstd::prelude::*;

verus! {

/// The value of a hexadecimal digit (either case).
pub open spec fn hex_digit(c: u8) -> Option<u8> {
    if 0x30 <= c <= 0x39 {
        Some((c - 0x30) as u8)
    } else if 0x61 <= c <= 0x66 {
        Some((c - 0x61 + 10) as u8)
    } else if 0x41 <= c <= 0x46 {
        Some((c - 0x41 + 10) as u8)
    } else {
        None
    }
}

/// Whether `t` is hexadecimal text: an even number of digits.
pub open spec fn is_hex(t: Seq<u8>) -> bool {
    t.len() % 2 == 0 && forall|i: int| 0 <= i < t.len() ==> (#[trigger] hex_digit(t[i])) is Some
}

/// The bytes that hexadecimal text `t` spells, two digits each, high digit first.
pub open spec fn hex_bytes(t: Seq<u8>) -> Seq<u8> {
    Seq::new(
        t.len() / 2,
        |i: int| (hex_digit(t[2 * i])->0 * 16 + hex_digit(t[2 * i + 1])->0) as u8,
    )
}

/// The lower-case digit of a value below 16.
pub open spec fn hex_char(v: int) -> char {
    if v < 10 {
        (0x30 + v) as char
    } else {
        (0x61 + v - 10) as char
    }
}

/// Lower-case hexadecimal text of `b`: two digits per byte, high digit first.
pub open spec fn hex_text(b: Seq<u8>) -> Seq<char> {
    Seq::new(
        2 * b.len(),
        |i: int|
            if i % 2 == 0 {
                hex_char(b[i / 2] as int / 16)
            } else {
                hex_char(b[i / 2] as int % 16)
            },
    )
}

/// The `Display` text of the error that `hex::decode` gives for `t`.
pub uninterp spec fn hex_error_text(t: Seq<u8>) -> Seq<char>;

/// Decodes hexadecimal text with `hex::decode`; a refusal comes back as the error's
/// `Display` text.
///
/// Claims what the `hex` crate's source does: text of an even number of digits, of
/// either case, decodes to one byte per two digits, high digit first; any other text is
/// refused, text of odd length with the text `Odd number of digits`. The text for an
/// invalid character (which names it and its position) is only named.
#[verifier::external_body]
pub(crate) fn decode_hex(t: &[u8]) -> (r: Result<Vec<u8>, String>)
    ensures
        match r {
            Ok(v) => is_hex(t@) && v@ == hex_bytes(t@),
            Err(m) => !is_hex(t@) && m@ == hex_error_text(t@),
        },
        t@.len() % 2 == 1 ==> r is Err && r->Err_0@ == "Odd number of digits"@,
{
    hex::decode(t).map_err(|e| e.to_string())
}

/// Encodes bytes as lower-case hexadecimal text with `hex::encode`.
///
/// Claims what the `hex` crate's source does: two lower-case digits per byte, high digit
/// first.
#[verifier::external_body]
pub(crate) fn encode_hex(b: &[u8]) -> (s: String)
    ensures
        s@ == hex_text(b@),
{
    hex::encode(b)
}

} // verus!
