use crate::mp4::error::Error;
use crate::mp4::parser::{be_at, ParsedBox};
use crate::mp4::reader::Reader;
use vstd::prelude::*;

verus! {

/// The fields of one sample of a track fragment run; each is present when the box's
/// flags say so.
#[derive(Debug, Clone, Copy, PartialEq, Eq, Structural)]
pub struct TrunSample {
    pub sample_duration: Option<u32>,
    pub sample_size: Option<u32>,
    pub sample_flags: Option<u32>,
    /// The composition time offset as stored (signed in version 1 boxes).
    pub sample_composition_time_offset: Option<u32>,
}

/// Track Fragment Run Box (trun): the samples of a run of a track fragment.
#[derive(Debug, Clone)]
pub struct TrunBox {
    /// The offset of the run's data from the start of the `moof` box.
    pub data_offset: Option<u32>,
    pub sample_data: Vec<TrunSample>,
}

/// The 32-bit field at `pos` when `present`.
pub open spec fn opt_field(p: Seq<u8>, pos: int, present: bool) -> Option<u32> {
    if present {
        Some(be_at(p, pos, 4) as u32)
    } else {
        None
    }
}

/// The size of the field: 4 bytes when present.
pub open spec fn field_size(present: bool) -> int {
    if present {
        4
    } else {
        0
    }
}

/// The size of one sample record under `flags`.
pub open spec fn record_size(flags: u32) -> int {
    field_size(flags & 0x100 != 0) + field_size(flags & 0x200 != 0) + field_size(flags & 0x400 != 0)
        + field_size(flags & 0x800 != 0)
}

/// The sample record at `pos`: duration (flag `0x100`), size (`0x200`), flags (`0x400`)
/// and composition time offset (`0x800`), each present when its flag is set.
pub open spec fn trun_sample_at(p: Seq<u8>, pos: int, flags: u32) -> TrunSample {
    let a = pos + field_size(flags & 0x100 != 0);
    let b = a + field_size(flags & 0x200 != 0);
    let c = b + field_size(flags & 0x400 != 0);
    TrunSample {
        sample_duration: opt_field(p, pos, flags & 0x100 != 0),
        sample_size: opt_field(p, a, flags & 0x200 != 0),
        sample_flags: opt_field(p, b, flags & 0x400 != 0),
        sample_composition_time_offset: opt_field(p, c, flags & 0x800 != 0),
    }
}

/// `r` with `prefix` in front of its samples.
pub open spec fn prepend_trun(prefix: Seq<TrunSample>, r: Result<Seq<TrunSample>, Error>) -> Result<
    Seq<TrunSample>,
    Error,
> {
    match r {
        Ok(s) => Ok(prefix + s),
        Err(e) => Err(e),
    }
}

/// `n` sample records from `pos`.
pub open spec fn trun_samples(p: Seq<u8>, pos: int, n: nat, flags: u32) -> Result<
    Seq<TrunSample>,
    Error,
>
    decreases n,
{
    if n == 0 {
        Ok(Seq::empty())
    } else if pos + record_size(flags) > p.len() {
        Err(Error::UnexpectedEof)
    } else {
        prepend_trun(
            seq![trun_sample_at(p, pos, flags)],
            trun_samples(p, pos + record_size(flags), (n - 1) as nat, flags),
        )
    }
}

/// The parsed content of a `trun` box.
pub struct TrunView {
    pub data_offset: Option<u32>,
    pub samples: Seq<TrunSample>,
}

/// The `trun` payload `p` under `flags`: a 32-bit sample count, the data offset (flag
/// `0x1`), the first sample's flags (`0x4`, skipped), then the sample records.
pub open spec fn trun_spec(p: Seq<u8>, flags: u32) -> Result<TrunView, Error> {
    let at_offset = 4int;
    let at_first = at_offset + field_size(flags & 1 != 0);
    let at_samples = at_first + field_size(flags & 4 != 0);
    if p.len() < at_samples {
        Err(Error::UnexpectedEof)
    } else {
        match trun_samples(p, at_samples, be_at(p, 0, 4), flags) {
            Ok(s) => Ok(TrunView { data_offset: opt_field(p, at_offset, flags & 1 != 0), samples: s }),
            Err(e) => Err(e),
        }
    }
}

proof fn lemma_prepend_trun_assoc(
    a: Seq<TrunSample>,
    b: Seq<TrunSample>,
    r: Result<Seq<TrunSample>, Error>,
)
    ensures
        prepend_trun(a + b, r) == prepend_trun(a, prepend_trun(b, r)),
{
    if r is Ok {
        assert(a + b + r->Ok_0 =~= a + (b + r->Ok_0));
    }
}

/// Reads a 32-bit field when `present`.
fn read_opt(reader: &mut Reader, present: bool) -> (r: Result<Option<u32>, Error>)
    requires
        old(reader).big_endian(),
    ensures
        final(reader).data() == old(reader).data(),
        final(reader).big_endian(),
        ({
            let p = old(reader).data();
            let pos = old(reader).position() as int;
            if pos + field_size(present) > p.len() {
                r == Err::<Option<u32>, Error>(Error::UnexpectedEof)
            } else {
                &&& r == Ok::<Option<u32>, Error>(opt_field(p, pos, present))
                &&& final(reader).position() == pos + field_size(present)
            }
        }),
{
    if present {
        let v = reader.read_u32()?;
        Ok(Some(v))
    } else {
        let _ = reader.get_position();
        Ok(None)
    }
}

impl TrunBox {
    /// Parses a `trun` box from a `ParsedBox`.
    pub fn new(box_: &mut ParsedBox) -> (r: Result<Self, Error>)
        requires
            old(box_).fresh(),
            old(box_).flags is Some,
        ensures
            match trun_spec(old(box_).reader.data(), old(box_).flags->0) {
                Ok(v) => r matches Ok(t) && t.data_offset == v.data_offset && t.sample_data@
                    == v.samples,
                Err(e) => r == Err::<Self, Error>(e),
            },
    {
        let ghost p = box_.reader.data();
        let flags = box_.flags.unwrap();
        let reader = &mut box_.reader;
        let count = reader.read_u32()?;
        let data_offset = read_opt(reader, flags & 1 != 0)?;
        let _first_sample_flags = read_opt(reader, flags & 4 != 0)?;
        let ghost at_samples = reader.position() as int;
        let mut sample_data: Vec<TrunSample> = Vec::new();
        let mut i: u32 = 0;
        while i < count
            invariant
                i <= count,
                p == old(box_).reader.data(),
                flags == old(box_).flags->0,
                count == be_at(p, 0, 4),
                at_samples == 4 + field_size(flags & 1 != 0) + field_size(flags & 4 != 0),
                p.len() >= at_samples,
                data_offset == opt_field(p, 4, flags & 1 != 0),
                reader.data() == p,
                reader.big_endian(),
                prepend_trun(
                    sample_data@,
                    trun_samples(p, reader.position() as int, (count - i) as nat, flags),
                ) == trun_samples(p, at_samples, count as nat, flags),
            decreases count - i,
        {
            let ghost pos = reader.position() as int;
            let sample_duration = read_opt(reader, flags & 0x100 != 0)?;
            let sample_size = read_opt(reader, flags & 0x200 != 0)?;
            let sample_flags = read_opt(reader, flags & 0x400 != 0)?;
            let sample_composition_time_offset = read_opt(reader, flags & 0x800 != 0)?;
            let sample = TrunSample {
                sample_duration,
                sample_size,
                sample_flags,
                sample_composition_time_offset,
            };
            let ghost before = sample_data@;
            sample_data.push(sample);
            proof {
                assert(sample == trun_sample_at(p, pos, flags));
                assert(sample_data@ =~= before + seq![sample]);
                lemma_prepend_trun_assoc(
                    before,
                    seq![sample],
                    trun_samples(p, reader.position() as int, (count - i - 1) as nat, flags),
                );
            }
            i = i + 1;
        }
        proof {
            assert(sample_data@ + Seq::<TrunSample>::empty() =~= sample_data@);
        }
        Ok(TrunBox { data_offset, sample_data })
    }
}

} // verus!
