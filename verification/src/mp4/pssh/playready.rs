//! The PlayReady object of a PlayReady PSSH payload: a little-endian record list whose
//! records of type 1 hold a PlayReady header (`WRMHEADER`) as UTF-16 XML text.
use crate::mp4::error::Error;
use crate::mp4::reader::{le_value, u16_chunks, Reader};
use vstd::prelude::*;

verus! {

/// The text that UTF-16 code units spell, or `None` where they are not valid UTF-16:
/// units outside the surrogate range stand for themselves, a high surrogate followed by
/// a low one for the character they combine to, and any other surrogate is invalid.
pub open spec fn utf16_text(units: Seq<u16>) -> Option<Seq<char>>
    decreases units.len(),
{
    if units.len() == 0 {
        Some(seq![])
    } else {
        let u = units[0];
        if u < 0xD800 || u > 0xDFFF {
            match utf16_text(units.drop_first()) {
                Some(r) => Some(seq![u as char] + r),
                None => None,
            }
        } else if u <= 0xDBFF && units.len() >= 2 && 0xDC00 <= units[1] <= 0xDFFF {
            let c = (0x10000 + (u - 0xD800) * 0x400 + (units[1] - 0xDC00)) as char;
            match utf16_text(units.skip(2)) {
                Some(r) => Some(seq![c] + r),
                None => None,
            }
        } else {
            None
        }
    }
}

/// Decodes UTF-16 code units with `String::from_utf16`.
///
/// Claims what the standard library documents: the text the units spell, and an error
/// where they hold an unpaired surrogate.
#[verifier::external_body]
fn decode_utf16(units: &[u16]) -> (r: Option<String>)
    ensures
        match r {
            Some(s) => utf16_text(units@) == Some(s@),
            None => utf16_text(units@) is None,
        },
{
    match String::from_utf16(units) {
        Ok(s) => Some(s),
        Err(_) => None,
    }
}

/// `r` with `x` in front of its texts.
pub open spec fn prepend_text(x: Seq<char>, r: Result<Seq<Seq<char>>, Error>) -> Result<
    Seq<Seq<char>>,
    Error,
> {
    match r {
        Ok(s) => Ok(seq![x] + s),
        Err(e) => Err(e),
    }
}

/// The header texts of `n` records from `pos`: each a 16-bit type, a 16-bit length and
/// that many bytes of UTF-16 code units (an odd last byte is dropped).
pub open spec fn pro_records(p: Seq<u8>, pos: int, n: nat) -> Result<Seq<Seq<char>>, Error>
    decreases n,
{
    if n == 0 {
        Ok(Seq::empty())
    } else if pos + 4 > p.len() {
        Err(Error::UnexpectedEof)
    } else {
        let t = le_value(p.subrange(pos, pos + 2));
        let l = le_value(p.subrange(pos + 2, pos + 4)) as int;
        if pos + 4 + l > p.len() {
            Err(Error::UnexpectedEof)
        } else {
            let rest = pro_records(p, pos + 4 + l, (n - 1) as nat);
            if t == 1 {
                match utf16_text(u16_chunks(p.subrange(pos + 4, pos + 4 + l), false)) {
                    None => Err(Error::MalformedPsshData),
                    Some(s) => prepend_text(s, rest),
                }
            } else {
                rest
            }
        }
    }
}

/// The PlayReady header texts of a PlayReady object: a 32-bit size, a 16-bit record
/// count, then the records.
pub open spec fn pro_texts(p: Seq<u8>) -> Result<Seq<Seq<char>>, Error> {
    if p.len() < 6 {
        Err(Error::UnexpectedEof)
    } else {
        pro_records(p, 6, le_value(p.subrange(4, 6)))
    }
}

proof fn lemma_prepend_text_assoc(
    a: Seq<Seq<char>>,
    b: Seq<Seq<char>>,
    r: Result<Seq<Seq<char>>, Error>,
)
    ensures
        match (prepend_all(a + b, r), prepend_all(a, prepend_all(b, r))) {
            (Ok(x), Ok(y)) => x == y,
            (Err(x), Err(y)) => x == y,
            _ => false,
        },
{
    if r is Ok {
        assert(a + b + r->Ok_0 =~= a + (b + r->Ok_0));
    }
}

/// `r` with `prefix` in front of its texts.
pub open spec fn prepend_all(prefix: Seq<Seq<char>>, r: Result<Seq<Seq<char>>, Error>) -> Result<
    Seq<Seq<char>>,
    Error,
> {
    match r {
        Ok(s) => Ok(prefix + s),
        Err(e) => Err(e),
    }
}

/// The PlayReady header texts (XML) of a PlayReady object.
pub fn wrm_header_texts(data: &[u8]) -> (r: Result<Vec<String>, Error>)
    ensures
        match pro_texts(data@) {
            Ok(v) => r matches Ok(t) && t@.map_values(|s: String| s@) == v,
            Err(e) => r == Err::<Vec<String>, Error>(e),
        },
{
    let ghost p = data@;
    let mut reader = Reader::new_little_endian(data);
    let _size = reader.read_u32()?;
    let count = reader.read_u16()?;
    let mut texts: Vec<String> = Vec::new();
    let mut i: u16 = 0;
    proof {
        assert(texts@.map_values(|s: String| s@) =~= Seq::<Seq<char>>::empty());
    }
    while i < count
        invariant
            p == data@,
            p.len() >= 6,
            count == le_value(p.subrange(4, 6)),
            reader.data() == p,
            !reader.big_endian(),
            i <= count,
            prepend_all(
                texts@.map_values(|s: String| s@),
                pro_records(p, reader.position() as int, (count - i) as nat),
            ) == pro_texts(p),
        decreases count - i,
    {
        let ghost pos = reader.position() as int;
        let ghost before = texts@.map_values(|s: String| s@);
        let record_type = reader.read_u16()?;
        let record_len = reader.read_u16()?;
        let units = reader.read_bytes_u16(record_len as usize)?;
        if record_type == 1 {
            let text = match decode_utf16(units.as_slice()) {
                Some(t) => t,
                None => {
                    return Err(Error::MalformedPsshData);
                },
            };
            texts.push(text);
            proof {
                assert(texts@.map_values(|s: String| s@) =~= before + seq![texts@.last()@]);
                lemma_prepend_text_assoc(
                    before,
                    seq![texts@.last()@],
                    pro_records(p, reader.position() as int, (count - i - 1) as nat),
                );
            }
        }
        i = i + 1;
    }
    proof {
        assert(texts@.map_values(|s: String| s@) + Seq::<Seq<char>>::empty() =~= texts@.map_values(
            |s: String| s@,
        ));
    }
    Ok(texts)
}

} // verus!
