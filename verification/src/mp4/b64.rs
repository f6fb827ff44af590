//! Base64 text (standard alphabet, with padding), as the `base64` crate reads and
//! writes it.
use base64::Engine;
use vstd::prelude::*;

verus! {

/// The character of a 6-bit value in the standard alphabet.
pub open spec fn b64_char(v: int) -> char {
    if v < 26 {
        (0x41 + v) as char
    } else if v < 52 {
        (0x61 + v - 26) as char
    } else if v < 62 {
        (0x30 + v - 52) as char
    } else if v == 62 {
        '+'
    } else {
        '/'
    }
}

/// Standard base64 text of `d`: four characters per three bytes, the last group padded
/// with `=`.
pub open spec fn b64_text(d: Seq<u8>) -> Seq<char>
    decreases d.len(),
{
    if d.len() == 0 {
        Seq::empty()
    } else if d.len() == 1 {
        seq![b64_char(d[0] as int / 4), b64_char((d[0] as int % 4) * 16), '=', '=']
    } else if d.len() == 2 {
        seq![
            b64_char(d[0] as int / 4),
            b64_char((d[0] as int % 4) * 16 + d[1] as int / 16),
            b64_char((d[1] as int % 16) * 4),
            '=',
        ]
    } else {
        seq![
            b64_char(d[0] as int / 4),
            b64_char((d[0] as int % 4) * 16 + d[1] as int / 16),
            b64_char((d[1] as int % 16) * 4 + d[2] as int / 64),
            b64_char(d[2] as int % 64),
        ] + b64_text(d.skip(3))
    }
}

/// The bytes of the standard base64 text of `d`.
pub open spec fn b64_bytes(d: Seq<u8>) -> Seq<u8> {
    b64_text(d).map_values(|c: char| c as u8)
}

/// What standard base64 `text` decodes to: the bytes whose canonical encoding it is, or
/// `None` where it is not the canonical encoding of any.
pub open spec fn base64_decoded(text: Seq<u8>) -> Option<Seq<u8>> {
    if exists|d: Seq<u8>| b64_bytes(d) == text {
        Some(choose|d: Seq<u8>| b64_bytes(d) == text)
    } else {
        None
    }
}

proof fn lemma_b64_char(a: int, b: int)
    requires
        0 <= a < 64,
        0 <= b < 64,
    ensures
        b64_char(a) != '=',
        (b64_char(a) as u8) != 0x3du8,
        (b64_char(a) as u8) == (b64_char(b) as u8) ==> a == b,
{
}

proof fn lemma_b64_len(d: Seq<u8>)
    ensures
        b64_text(d).len() == 4 * ((d.len() + 2) / 3),
    decreases d.len(),
{
    if d.len() >= 3 {
        lemma_b64_len(d.skip(3));
    }
}

proof fn lemma_bytes_from_groups(a0: u8, a1: u8, a2: u8, b0: u8, b1: u8, b2: u8)
    requires
        a0 / 4 == b0 / 4,
        (a0 % 4) * 16 + a1 / 16 == (b0 % 4) * 16 + b1 / 16,
        (a1 % 16) * 4 + a2 / 64 == (b1 % 16) * 4 + b2 / 64,
        a2 % 64 == b2 % 64,
    ensures
        a0 == b0,
        a1 == b1,
        a2 == b2,
{
    assert(a0 == b0 && a1 == b1 && a2 == b2) by (bit_vector)
        requires
            a0 / 4 == b0 / 4,
            (a0 % 4) * 16 + a1 / 16 == (b0 % 4) * 16 + b1 / 16,
            (a1 % 16) * 4 + a2 / 64 == (b1 % 16) * 4 + b2 / 64,
            a2 % 64 == b2 % 64,
    ;
}

proof fn lemma_last_groups(a0: u8, a1: u8, b0: u8, b1: u8)
    requires
        a0 / 4 == b0 / 4,
        (a0 % 4) * 16 + a1 / 16 == (b0 % 4) * 16 + b1 / 16,
        (a1 % 16) * 4 == (b1 % 16) * 4,
    ensures
        a0 == b0,
        a1 == b1,
{
    assert(a0 == b0 && a1 == b1) by (bit_vector)
        requires
            a0 / 4 == b0 / 4,
            (a0 % 4) * 16 + a1 / 16 == (b0 % 4) * 16 + b1 / 16,
            (a1 % 16) * 4 == (b1 % 16) * 4,
    ;
}

proof fn lemma_last_group(a0: u8, b0: u8)
    requires
        a0 / 4 == b0 / 4,
        (a0 % 4) * 16 == (b0 % 4) * 16,
    ensures
        a0 == b0,
{
    assert(a0 == b0) by (bit_vector)
        requires
            a0 / 4 == b0 / 4,
            (a0 % 4) * 16 == (b0 % 4) * 16,
    ;
}

/// Different bytes have different standard base64 encodings.
proof fn lemma_b64_injective(d1: Seq<u8>, d2: Seq<u8>)
    requires
        b64_bytes(d1) == b64_bytes(d2),
    ensures
        d1 == d2,
    decreases d1.len(),
{
    let t1 = b64_text(d1);
    let t2 = b64_text(d2);
    lemma_b64_len(d1);
    lemma_b64_len(d2);
    assert(b64_bytes(d1).len() == t1.len());
    assert(t1.len() == t2.len());
    if d1.len() == 0 {
        assert(d2.len() == 0);
        assert(d1 =~= d2);
        return;
    }
    assert forall|k: int| 0 <= k < t1.len() implies (t1[k] as u8) == (t2[k] as u8) by {
        assert(b64_bytes(d1)[k] == t1[k] as u8);
        assert(b64_bytes(d2)[k] == t2[k] as u8);
    }
    let a0 = d1[0];
    let b0 = d2[0];
    assert(d2.len() > 0);
    assert(t1[0] == b64_char(a0 as int / 4));
    assert(t2[0] == b64_char(b0 as int / 4));
    assert((t1[0] as u8) == (t2[0] as u8));
    lemma_b64_char(a0 as int / 4, b0 as int / 4);
    assert(a0 / 4 == b0 / 4);
    if d1.len() == 1 {
        lemma_b64_char((a0 as int % 4) * 16, 0);
        if d2.len() >= 2 {
            let v: int = if d2.len() == 2 {
                (d2[1] as int % 16) * 4
            } else {
                (d2[1] as int % 16) * 4 + d2[2] as int / 64
            };
            lemma_b64_char(v, 0);
            assert(t1[2] as u8 == 0x3du8);
            assert(false);
        }
        assert(t1[1] == b64_char((a0 as int % 4) * 16));
        assert(t2[1] == b64_char((b0 as int % 4) * 16));
        assert((t1[1] as u8) == (t2[1] as u8));
        lemma_b64_char((a0 as int % 4) * 16, (b0 as int % 4) * 16);
        lemma_last_group(a0, b0);
        assert(d1 =~= d2);
    } else if d1.len() == 2 {
        let a1 = d1[1];
        let v1: int = (a1 as int % 16) * 4;
        lemma_b64_char(v1, 0);
        assert(t1[2] as u8 != 0x3du8);
        if d2.len() == 1 {
            assert(t2[2] as u8 == 0x3du8);
            assert(false);
        }
        if d2.len() >= 3 {
            lemma_b64_char(d2[2] as int % 64, 0);
            assert(t2[3] as u8 != 0x3du8);
            assert(false);
        }
        let b1 = d2[1];
        assert(t1[1] == b64_char((a0 as int % 4) * 16 + a1 as int / 16));
        assert(t2[1] == b64_char((b0 as int % 4) * 16 + b1 as int / 16));
        assert(t1[2] == b64_char(v1));
        assert(t2[2] == b64_char((b1 as int % 16) * 4));
        assert((t1[1] as u8) == (t2[1] as u8));
        assert((t1[2] as u8) == (t2[2] as u8));
        lemma_b64_char((a0 as int % 4) * 16 + a1 as int / 16, (b0 as int % 4) * 16 + b1 as int / 16);
        lemma_b64_char(v1, (b1 as int % 16) * 4);
        lemma_last_groups(a0, a1, b0, b1);
        assert(d1 =~= d2);
    } else {
        let a1 = d1[1];
        let a2 = d1[2];
        lemma_b64_char(a2 as int % 64, 0);
        lemma_b64_char((a1 as int % 16) * 4 + a2 as int / 64, 0);
        assert(t1[3] as u8 != 0x3du8);
        assert(t1[2] as u8 != 0x3du8);
        if d2.len() == 1 {
            assert(t2[3] as u8 == 0x3du8);
            assert(false);
        }
        if d2.len() == 2 {
            assert(t2[3] as u8 == 0x3du8);
            assert(false);
        }
        let b1 = d2[1];
        let b2 = d2[2];
        assert(t1[1] == b64_char((a0 as int % 4) * 16 + a1 as int / 16));
        assert(t2[1] == b64_char((b0 as int % 4) * 16 + b1 as int / 16));
        assert(t1[2] == b64_char((a1 as int % 16) * 4 + a2 as int / 64));
        assert(t2[2] == b64_char((b1 as int % 16) * 4 + b2 as int / 64));
        assert(t1[3] == b64_char(a2 as int % 64));
        assert(t2[3] == b64_char(b2 as int % 64));
        assert((t1[1] as u8) == (t2[1] as u8));
        assert((t1[2] as u8) == (t2[2] as u8));
        assert((t1[3] as u8) == (t2[3] as u8));
        lemma_b64_char((a0 as int % 4) * 16 + a1 as int / 16, (b0 as int % 4) * 16 + b1 as int / 16);
        lemma_b64_char(
            (a1 as int % 16) * 4 + a2 as int / 64,
            (b1 as int % 16) * 4 + b2 as int / 64,
        );
        lemma_b64_char(a2 as int % 64, b2 as int % 64);
        lemma_bytes_from_groups(a0, a1, a2, b0, b1, b2);
        let r1 = d1.skip(3);
        let r2 = d2.skip(3);
        assert(t1 == t1.take(4) + b64_text(r1));
        assert(t2 == t2.take(4) + b64_text(r2));
        assert(b64_bytes(r1) =~= b64_bytes(d1).skip(4));
        assert(b64_bytes(r2) =~= b64_bytes(d2).skip(4));
        lemma_b64_injective(r1, r2);
        assert(d1 =~= d2) by {
            assert forall|k: int| 0 <= k < d1.len() implies d1[k] == d2[k] by {
                if k >= 3 {
                    assert(d1[k] == r1[k - 3]);
                    assert(d2[k] == r2[k - 3]);
                }
            }
        }
    }
}

/// Standard base64 text decodes back to the bytes it encodes.
pub proof fn base64_round_trip(d: Seq<u8>)
    ensures
        base64_decoded(b64_bytes(d)) == Some(d),
{
    let e = choose|x: Seq<u8>| b64_bytes(x) == b64_bytes(d);
    lemma_b64_injective(e, d);
}

/// Encodes bytes as standard base64 text with
/// `base64::engine::general_purpose::STANDARD.encode`.
///
/// Claims the standard alphabet and padding of RFC 4648, as the crate documents them.
#[verifier::external_body]
pub(crate) fn encode_base64(d: &[u8]) -> (s: String)
    ensures
        s@ == b64_text(d@),
{
    base64::engine::general_purpose::STANDARD.encode(d)
}

/// Decodes standard base64 text with `base64::engine::general_purpose::STANDARD.decode`.
///
/// Claims what the crate's standard engine does: it accepts exactly the canonical padded
/// encodings (no missing or extra padding, no trailing bits, no other characters), and
/// gives the bytes encoded. A refusal comes back as the `DecodeError`'s `Display` text,
/// which is not stated.
#[verifier::external_body]
fn standard_decode(text: &[u8]) -> (r: Result<Vec<u8>, String>)
    ensures
        match r {
            Ok(v) => b64_bytes(v@) == text@,
            Err(_) => forall|d: Seq<u8>| b64_bytes(d) != text@,
        },
{
    match base64::engine::general_purpose::STANDARD.decode(text) {
        Ok(v) => Ok(v),
        Err(e) => Err(e.to_string()),
    }
}

/// Decodes standard base64 text; a refusal carries the decoder's message.
pub(crate) fn decode_base64(text: &[u8]) -> (r: Result<Vec<u8>, String>)
    ensures
        match r {
            Ok(v) => base64_decoded(text@) == Some(v@),
            Err(_) => base64_decoded(text@) is None,
        },
{
    let r = standard_decode(text);
    proof {
        if r is Ok {
            let d = choose|d: Seq<u8>| b64_bytes(d) == text@;
            lemma_b64_injective(d, r->Ok_0@);
        }
    }
    r
}

} // verus!
