use crate::mp4::boxes::iv::{pad_iv, padded_iv};
use crate::mp4::error::Error;
use crate::mp4::parser::{be_at, ParsedBox};
use crate::mp4::reader::Reader;
use vstd::prelude::*;

verus! {

/// A run of clear bytes followed by a run of encrypted bytes within a sample.
#[derive(Debug, Clone, Copy, PartialEq, Eq, Structural)]
pub struct SencSubsample {
    pub bytes_of_clear_data: u16,
    pub bytes_of_encrypted_data: u32,
}

/// The encryption parameters of one sample.
#[derive(Debug, Clone)]
pub struct SencSample {
    /// The IV of the sample, padded to 16 bytes.
    pub iv: [u8; 16],
    /// The subsamples; empty when the whole sample is encrypted.
    pub subsamples: Vec<SencSubsample>,
}

/// Sample Encryption Box (senc): the IVs and subsample layout of the samples of a fragment.
#[derive(Debug, Clone)]
pub struct SencBox {
    pub samples: Vec<SencSample>,
}

/// The content of a sample's encryption parameters.
pub struct SencSampleView {
    pub iv: Seq<u8>,
    pub subsamples: Seq<SencSubsample>,
}

impl SencSample {
    pub open spec fn view_sample(&self) -> SencSampleView {
        SencSampleView { iv: self.iv@, subsamples: self.subsamples@ }
    }
}

/// `r` with `prefix` in front of its samples.
pub open spec fn prepend_samples(
    prefix: Seq<SencSampleView>,
    r: Result<Seq<SencSampleView>, Error>,
) -> Result<Seq<SencSampleView>, Error> {
    match r {
        Ok(s) => Ok(prefix + s),
        Err(e) => Err(e),
    }
}

/// The `m` subsample entries of 6 bytes each at `pos`.
pub open spec fn subsamples_at(p: Seq<u8>, pos: int, m: nat) -> Seq<SencSubsample> {
    Seq::new(
        m,
        |j: int|
            SencSubsample {
                bytes_of_clear_data: be_at(p, pos + 6 * j, 2) as u16,
                bytes_of_encrypted_data: be_at(p, pos + 6 * j + 2, 4) as u32,
            },
    )
}

/// `n` sample entries from `pos`: each an IV of `iv_size` bytes (the constant IV, or
/// zeros, when the size is 0), then, when `has_subsamples`, a 16-bit count and that many
/// subsample entries.
pub open spec fn senc_samples(
    p: Seq<u8>,
    pos: int,
    n: nat,
    iv_size: u8,
    constant_iv: Option<Seq<u8>>,
    has_subsamples: bool,
) -> Result<Seq<SencSampleView>, Error>
    decreases n,
{
    if n == 0 {
        Ok(Seq::empty())
    } else if iv_size > 0 && pos + iv_size > p.len() {
        Err(Error::UnexpectedEof)
    } else {
        let iv = if iv_size > 0 {
            padded_iv(p.subrange(pos, pos + iv_size))
        } else {
            match constant_iv {
                Some(c) => c,
                None => Seq::new(16, |i: int| 0u8),
            }
        };
        let at = pos + iv_size;
        if has_subsamples && at + 2 > p.len() {
            Err(Error::UnexpectedEof)
        } else {
            let m: nat = if has_subsamples {
                be_at(p, at, 2)
            } else {
                0
            };
            let first = at + if has_subsamples {
                2int
            } else {
                0int
            };
            if first + 6 * m > p.len() {
                Err(Error::UnexpectedEof)
            } else {
                prepend_samples(
                    seq![SencSampleView { iv, subsamples: subsamples_at(p, first, m) }],
                    senc_samples(
                        p,
                        first + 6 * m,
                        (n - 1) as nat,
                        iv_size,
                        constant_iv,
                        has_subsamples,
                    ),
                )
            }
        }
    }
}

/// The `senc` payload `p`: a 32-bit sample count, then the sample entries; flag `0x2`
/// says that entries carry subsamples.
pub open spec fn senc_spec(
    p: Seq<u8>,
    flags: u32,
    iv_size: u8,
    constant_iv: Option<Seq<u8>>,
) -> Result<Seq<SencSampleView>, Error> {
    if p.len() < 4 {
        Err(Error::UnexpectedEof)
    } else {
        senc_samples(p, 4, be_at(p, 0, 4), iv_size, constant_iv, flags & 2 != 0)
    }
}

pub open spec fn sample_views(v: Seq<SencSample>) -> Seq<SencSampleView> {
    v.map_values(|s: SencSample| s.view_sample())
}

proof fn lemma_prepend_assoc(
    a: Seq<SencSampleView>,
    b: Seq<SencSampleView>,
    r: Result<Seq<SencSampleView>, Error>,
)
    ensures
        prepend_samples(a + b, r) == prepend_samples(a, prepend_samples(b, r)),
{
    if r is Ok {
        assert(a + b + r->Ok_0 =~= a + (b + r->Ok_0));
    }
}

/// Reads `m` subsample entries.
fn read_subsamples(reader: &mut Reader, m: u16) -> (r: Result<Vec<SencSubsample>, Error>)
    requires
        old(reader).big_endian(),
    ensures
        final(reader).data() == old(reader).data(),
        final(reader).big_endian(),
        ({
            let p = old(reader).data();
            let pos = old(reader).position() as int;
            if pos + 6 * m > p.len() {
                r == Err::<Vec<SencSubsample>, Error>(Error::UnexpectedEof)
            } else {
                r matches Ok(v) && v@ == subsamples_at(p, pos, m as nat) && final(reader).position()
                    == pos + 6 * m
            }
        }),
{
    let ghost p = reader.data();
    let first = reader.get_position();
    let mut subsamples: Vec<SencSubsample> = Vec::new();
    let mut j: u16 = 0;
    while j < m
        invariant
            j <= m,
            reader.data() == p,
            reader.big_endian(),
            reader.position() == first + 6 * j,
            first + 6 * j <= p.len(),
            p == old(reader).data(),
            first == old(reader).position(),
            subsamples@ == subsamples_at(p, first as int, j as nat),
        decreases m - j,
    {
        let clear = reader.read_u16()?;
        let enc = reader.read_u32()?;
        subsamples.push(SencSubsample { bytes_of_clear_data: clear, bytes_of_encrypted_data: enc });
        j = j + 1;
        proof {
            assert(subsamples@ =~= subsamples_at(p, first as int, j as nat));
        }
    }
    Ok(subsamples)
}

impl SencBox {
    /// Parses a `senc` box from a `ParsedBox`, with the per-sample IV size and constant
    /// IV of the track.
    pub fn new(box_: &mut ParsedBox, iv_size: u8, constant_iv: Option<&[u8; 16]>) -> (r: Result<
        Self,
        Error,
    >)
        requires
            old(box_).fresh(),
            old(box_).flags is Some,
        ensures
            match senc_spec(
                old(box_).reader.data(),
                old(box_).flags->0,
                iv_size,
                match constant_iv {
                    Some(c) => Some(c@),
                    None => None,
                },
            ) {
                Ok(v) => r matches Ok(s) && sample_views(s.samples@) == v,
                Err(e) => r == Err::<Self, Error>(e),
            },
    {
        let ghost p = box_.reader.data();
        let ghost civ = match constant_iv {
            Some(c) => Some(c@),
            None => None,
        };
        let has_subsamples = box_.flags.unwrap() & 2 != 0;
        let reader = &mut box_.reader;
        let count = reader.read_u32()?;
        let mut samples: Vec<SencSample> = Vec::new();
        let mut i: u32 = 0;
        proof {
            assert(sample_views(samples@) =~= Seq::<SencSampleView>::empty());
        }
        while i < count
            invariant
                i <= count,
                p == old(box_).reader.data(),
                has_subsamples == (old(box_).flags->0 & 2 != 0),
                old(box_).flags is Some,
                civ == match constant_iv {
                    Some(c) => Some(c@),
                    None => None::<Seq<u8>>,
                },
                reader.data() == p,
                reader.big_endian(),
                4 <= reader.position() <= p.len(),
                count == be_at(p, 0, 4),
                p.len() >= 4,
                prepend_samples(
                    sample_views(samples@),
                    senc_samples(
                        p,
                        reader.position() as int,
                        (count - i) as nat,
                        iv_size,
                        civ,
                        has_subsamples,
                    ),
                ) == senc_samples(p, 4, count as nat, iv_size, civ, has_subsamples),
            decreases count - i,
        {
            let ghost pos = reader.position() as int;
            let iv = if iv_size > 0 {
                let bytes = reader.read_bytes_u8(iv_size as usize)?;
                pad_iv(bytes.as_slice())
            } else {
                match constant_iv {
                    Some(c) => *c,
                    None => [0u8; 16],
                }
            };
            proof {
                if iv_size == 0 && constant_iv is None {
                    assert(iv@ =~= Seq::new(16, |i: int| 0u8));
                }
            }
            let ghost at = reader.position() as int;
            let subsamples = if has_subsamples {
                let m = reader.read_u16()?;
                read_subsamples(reader, m)?
            } else {
                Vec::new()
            };
            proof {
                if !has_subsamples {
                    assert(subsamples@ =~= subsamples_at(p, at, 0));
                }
            }
            let ghost entry = SencSampleView { iv: iv@, subsamples: subsamples@ };
            let ghost before = sample_views(samples@);
            samples.push(SencSample { iv, subsamples });
            proof {
                assert(sample_views(samples@) =~= before + seq![entry]);
                lemma_prepend_assoc(
                    before,
                    seq![entry],
                    senc_samples(
                        p,
                        reader.position() as int,
                        (count - i - 1) as nat,
                        iv_size,
                        civ,
                        has_subsamples,
                    ),
                );
            }
            i = i + 1;
        }
        proof {
            assert(sample_views(samples@) + Seq::<SencSampleView>::empty() =~= sample_views(
                samples@,
            ));
        }
        Ok(SencBox { samples })
    }
}

} // verus!
