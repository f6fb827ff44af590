use crate::mp4::error::Error;
use crate::mp4::parser::{be_at, ParsedBox};
use vstd::prelude::*;

verus! {

/// Scheme Type Box (schm): the protection scheme of a track.
#[derive(Debug, Clone)]
pub struct SchmBox {
    /// The scheme as a four character code (`cenc`, `cens`, `cbc1` or `cbcs`).
    pub scheme_type: u32,
    /// The version of the scheme.
    pub scheme_version: u32,
}

impl SchmBox {
    /// Parses a `schm` box from a `ParsedBox`: the scheme type, then its version.
    pub fn new(box_: &mut ParsedBox) -> (r: Result<Self, Error>)
        requires
            old(box_).fresh(),
        ensures
            ({
                let p = old(box_).reader.data();
                if p.len() < 8 {
                    r == Err::<Self, Error>(Error::UnexpectedEof)
                } else {
                    r matches Ok(s) && s.scheme_type == be_at(p, 0, 4) && s.scheme_version == be_at(
                        p,
                        4,
                        4,
                    )
                }
            }),
    {
        let ghost p = box_.reader.data();
        let reader = &mut box_.reader;
        let scheme_type = reader.read_u32()?;
        let scheme_version = reader.read_u32()?;
        Ok(SchmBox { scheme_type, scheme_version })
    }
}

} // verus!
