use crate::mp4::error::Error;
use crate::mp4::parser::ParsedBox;
use crate::mp4::reader::endian_value;
use vstd::prelude::*;

verus! {

/// Track Fragment Base Media Decode Time Box (tfdt) - absolute decode time of the first sample.
///
/// This box provides the absolute decode time, measured on the media timeline,
/// of the first sample in decode order in the track fragment.
#[derive(Debug, Clone)]
pub struct TfdtBox {
    /// The absolute decode time, measured on the media timeline, of the first sample in decode order in the track fragment.
    pub base_media_decode_time: u64,
}

impl TfdtBox {
    /// Parses a `tfdt` box from a `ParsedBox`, reading from where its reader stands: a
    /// 64-bit decode time for version 1, a 32-bit one otherwise. The version must be
    /// known (the box was parsed as a full box).
    pub fn new(box_: &mut ParsedBox) -> (r: Result<Self, Error>)
        requires
            old(box_).version is Some,
        ensures
            ({
                let rd = old(box_).reader;
                let n: nat = if old(box_).version->0 == 1 {
                    8
                } else {
                    4
                };
                &&& rd.after_read(&final(box_).reader, n)
                &&& if rd.position() + n > rd.data().len() {
                    r == Err::<Self, Error>(Error::UnexpectedEof)
                } else {
                    r matches Ok(t) && t.base_media_decode_time == endian_value(
                        rd.peek(n),
                        rd.big_endian(),
                    )
                }
            }),
    {
        let version = box_.version.unwrap();
        let reader = &mut box_.reader;
        let base_media_decode_time = if version == 1 {
            reader.read_u64()?
        } else {
            reader.read_u32()? as u64
        };
        Ok(TfdtBox { base_media_decode_time })
    }
}

} // verus!
