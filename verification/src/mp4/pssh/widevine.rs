//! Key IDs of a Widevine PSSH payload: a protobuf `WidevinePsshData` message whose
//! field 2 holds the key IDs.
use crate::mp4::error::Error;
use crate::mp4::hex::{encode_hex, hex_text};
use vstd::prelude::*;

verus! {

pub open spec fn pow128(k: nat) -> nat
    decreases k,
{
    if k == 0 {
        1
    } else {
        128 * pow128((k - 1) as nat)
    }
}

/// The protobuf varint at `pos`, from its `k`-th byte on: its value (from that byte on)
/// and the position after it; at most 10 bytes, the tenth no more than 1.
pub open spec fn pb_varint(p: Seq<u8>, pos: int, k: nat) -> Option<(nat, int)>
    decreases 10 - k,
{
    if k >= 10 || pos < 0 || pos + k >= p.len() {
        None
    } else {
        let b = p[pos + k];
        if b < 128 {
            if k == 9 && b > 1 {
                None
            } else {
                Some((b as nat * pow128(k), pos + k + 1))
            }
        } else {
            match pb_varint(p, pos, k + 1) {
                None => None,
                Some((v, n)) => Some(((b - 128) as nat * pow128(k) + v, n)),
            }
        }
    }
}

/// `r` with `x` in front of its key IDs.
pub open spec fn prepend_id(x: Seq<u8>, r: Option<Seq<Seq<u8>>>) -> Option<Seq<Seq<u8>>> {
    match r {
        Some(s) => Some(seq![x] + s),
        None => None,
    }
}

/// The key IDs (field 2, length-delimited) of the protobuf fields from `pos` on, or
/// `None` where the message is malformed: a bad varint, a key beyond 32 bits or with
/// field number 0, a field that runs past the end, a group, or field 2 with another
/// wire type. Other fields are skipped by their wire type.
pub open spec fn wv_key_ids(p: Seq<u8>, pos: int) -> Option<Seq<Seq<u8>>>
    decreases p.len() - pos,
{
    if pos < 0 || pos >= p.len() {
        Some(Seq::empty())
    } else {
        match pb_varint(p, pos, 0) {
            None => None,
            Some((key, q)) => if key > 0xffff_ffff || key / 8 == 0 || q <= pos {
                None
            } else {
                let wt = key % 8;
                let field = key / 8;
                if wt == 0 {
                    match pb_varint(p, q, 0) {
                        None => None,
                        Some((_, r)) => if field == 2 || r <= q || r > p.len() {
                            None
                        } else {
                            wv_key_ids(p, r)
                        },
                    }
                } else if wt == 1 {
                    if field == 2 || q + 8 > p.len() {
                        None
                    } else {
                        wv_key_ids(p, q + 8)
                    }
                } else if wt == 2 {
                    match pb_varint(p, q, 0) {
                        None => None,
                        Some((len, r)) => if r <= q || r + len > p.len() {
                            None
                        } else if field == 2 {
                            prepend_id(p.subrange(r, r + len), wv_key_ids(p, r + len))
                        } else {
                            wv_key_ids(p, r + len)
                        },
                    }
                } else if wt == 5 {
                    if field == 2 || q + 4 > p.len() {
                        None
                    } else {
                        wv_key_ids(p, q + 4)
                    }
                } else {
                    None
                }
            },
        }
    }
}

proof fn lemma_varint_next(p: Seq<u8>, pos: int, k: nat)
    ensures
        pb_varint(p, pos, k) matches Some((v, n)) ==> pos + k < n <= p.len(),
    decreases 10 - k,
{
    if !(k >= 10 || pos < 0 || pos + k >= p.len()) {
        if p[pos + k] >= 128 {
            lemma_varint_next(p, pos, k + 1);
        }
    }
}

/// Reads the varint at `pos`.
fn read_varint(p: &[u8], pos: usize) -> (r: Option<(u64, usize)>)
    ensures
        match pb_varint(p@, pos as int, 0) {
            Some((v, n)) => r matches Some((a, b)) && a == v && b == n,
            None => r is None,
        },
{
    let len = p.len();
    let mut acc: u128 = 0;
    let mut scale: u128 = 1;
    let mut k: usize = 0;
    proof {
        lemma_varint_next(p@, pos as int, 0);
        reveal_with_fuel(pow128, 10);
        assert(pow128(8) == 0x100_0000_0000_0000nat);
        assert(pow128(9) == 0x8000_0000_0000_0000nat);
    }
    while k < 10
        invariant
            len == p@.len(),
            k <= 10,
            scale == pow128(k as nat),
            scale <= 0x8000_0000_0000_0000u128,
            pow128(8) == 0x100_0000_0000_0000nat,
            pow128(9) == 0x8000_0000_0000_0000nat,
            acc < scale,
            pb_varint(p@, pos as int, 0) == match pb_varint(p@, pos as int, k as nat) {
                Some((v, n)) => Some(((acc + v) as nat, n)),
                None => None::<(nat, int)>,
            },
        decreases 10 - k,
    {
        if pos >= len || len - pos <= k {
            return None;
        }
        let b = p[pos + k];
        if b < 128 {
            if k == 9 && b > 1 {
                return None;
            }
            proof {
                if k < 9 {
                    lemma_pow128_mono(k as nat, 8);
                    assert(acc + (b as nat) * scale < 0x1_0000_0000_0000_0000) by (nonlinear_arith)
                        requires
                            acc < scale,
                            scale <= 0x100_0000_0000_0000u128,
                            b < 128,
                    ;
                } else {
                    assert(acc + (b as nat) * scale < 0x1_0000_0000_0000_0000) by (nonlinear_arith)
                        requires
                            acc < scale,
                            scale <= 0x8000_0000_0000_0000u128,
                            b <= 1,
                    ;
                }
            }
            let v = acc + (b as u128) * scale;
            return Some((v as u64, pos + k + 1));
        }
        proof {
            assert(scale * 128 == pow128((k + 1) as nat));
            assert(acc + ((b - 128) as nat) * scale < scale * 128) by (nonlinear_arith)
                requires
                    acc < scale,
                    b >= 128,
                    b < 256,
            ;
            if k < 9 {
                assert(pow128(9) == 0x8000_0000_0000_0000nat) by {
                    reveal_with_fuel(pow128, 10);
                }
                lemma_pow128_mono((k + 1) as nat, 9);
            }
        }
        acc = acc + ((b - 128) as u128) * scale;
        if k < 9 {
            scale = scale * 128;
        }
        k = k + 1;
        if k == 10 {
            return None;
        }
    }
    None
}

proof fn lemma_pow128_mono(a: nat, b: nat)
    requires
        a <= b,
    ensures
        pow128(a) <= pow128(b),
    decreases b - a,
{
    if a < b {
        lemma_pow128_mono(a, (b - 1) as nat);
    }
}

/// `r` with `prefix` in front of its key IDs.
pub open spec fn prepend_ids(prefix: Seq<Seq<u8>>, r: Option<Seq<Seq<u8>>>) -> Option<Seq<Seq<u8>>> {
    match r {
        Some(s) => Some(prefix + s),
        None => None,
    }
}

/// The key IDs as lower-case hexadecimal text.
pub open spec fn hex_ids(ids: Seq<Seq<u8>>) -> Seq<Seq<char>> {
    ids.map_values(|x: Seq<u8>| hex_text(x))
}

/// Encodes each key ID as lower-case hexadecimal text.
pub fn encode_ids(ids: &Vec<Vec<u8>>) -> (r: Vec<String>)
    ensures
        r@.map_values(|s: String| s@) == hex_ids(ids@.map_values(|x: Vec<u8>| x@)),
{
    let mut out: Vec<String> = Vec::new();
    let mut i: usize = 0;
    while i < ids.len()
        invariant
            i <= ids@.len(),
            out@.len() == i,
            forall|j: int| 0 <= j < i ==> (#[trigger] out@[j])@ == hex_text(ids@[j]@),
        decreases ids.len() - i,
    {
        out.push(encode_hex(ids[i].as_slice()));
        i = i + 1;
    }
    proof {
        assert(out@.map_values(|s: String| s@) =~= hex_ids(ids@.map_values(|x: Vec<u8>| x@)));
    }
    out
}

/// The key IDs of a Widevine PSSH payload, as lower-case hexadecimal text.
///
/// Fails with `MalformedPsshData` where the protobuf message is malformed.
pub fn parse_key_ids(data: &[u8]) -> (r: Result<Vec<String>, Error>)
    ensures
        match wv_key_ids(data@, 0) {
            Some(ids) => r matches Ok(v) && v@.map_values(|s: String| s@) == hex_ids(ids),
            None => r == Err::<Vec<String>, Error>(Error::MalformedPsshData),
        },
{
    let len = data.len();
    let mut ids: Vec<Vec<u8>> = Vec::new();
    let mut pos: usize = 0;
    proof {
        assert(Seq::<Seq<u8>>::empty() + Seq::<Seq<u8>>::empty() =~= Seq::<Seq<u8>>::empty());
    }
    while pos < len
        invariant
            len == data@.len(),
            pos <= len,
            wv_key_ids(data@, 0) == prepend_ids(
                ids@.map_values(|x: Vec<u8>| x@),
                wv_key_ids(data@, pos as int),
            ),
        decreases len - pos,
    {
        let ghost before = ids@.map_values(|x: Vec<u8>| x@);
        let (key, q) = match read_varint(data, pos) {
            Some(x) => x,
            None => {
                return Err(Error::MalformedPsshData);
            },
        };
        proof {
            lemma_varint_next(data@, pos as int, 0);
        }
        if key > 0xffff_ffff || key / 8 == 0 {
            return Err(Error::MalformedPsshData);
        }
        let wt = key % 8;
        let field = key / 8;
        if wt == 0 {
            let r = match read_varint(data, q) {
                Some((_, r)) => r,
                None => {
                    return Err(Error::MalformedPsshData);
                },
            };
            proof {
                lemma_varint_next(data@, q as int, 0);
            }
            if field == 2 {
                return Err(Error::MalformedPsshData);
            }
            pos = r;
        } else if wt == 1 {
            if field == 2 || len - q < 8 {
                return Err(Error::MalformedPsshData);
            }
            pos = q + 8;
        } else if wt == 2 {
            let (l, r) = match read_varint(data, q) {
                Some(x) => x,
                None => {
                    return Err(Error::MalformedPsshData);
                },
            };
            proof {
                lemma_varint_next(data@, q as int, 0);
            }
            if l > ((len - r) as u64) {
                return Err(Error::MalformedPsshData);
            }
            let end = r + l as usize;
            if field == 2 {
                let id = vstd::slice::slice_to_vec(vstd::slice::slice_subrange(data, r, end));
                ids.push(id);
                proof {
                    assert(ids@.map_values(|x: Vec<u8>| x@) =~= before + seq![data@.subrange(r as int, end as int)]);
                    let rest = wv_key_ids(data@, end as int);
                    if rest is Some {
                        assert(before + seq![data@.subrange(r as int, end as int)] + rest->0
                            =~= before + (seq![data@.subrange(r as int, end as int)] + rest->0));
                    }
                }
            }
            pos = end;
        } else if wt == 5 {
            if field == 2 || len - q < 4 {
                return Err(Error::MalformedPsshData);
            }
            pos = q + 4;
        } else {
            return Err(Error::MalformedPsshData);
        }
    }
    proof {
        assert(ids@.map_values(|x: Vec<u8>| x@) + Seq::<Seq<u8>>::empty() =~= ids@.map_values(
            |x: Vec<u8>| x@,
        ));
    }
    let out = encode_ids(&ids);
    Ok(out)
}

} // verus!
