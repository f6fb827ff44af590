use crate::mp4::error::Error;
use crate::mp4::parser::{walk, BoxAction, BoxRule, BoxView, Mp4Parser, ParsedBox, SIDX};
use crate::mp4::reader::endian_value;
use vstd::prelude::*;

verus! {

/// A byte range for a subsegment or media fragment indexed by the `sidx` box.
#[derive(Debug, Clone, Copy, PartialEq, Eq, Structural)]
pub struct SidxRange {
    /// The ending byte offset (inclusive) of the subsegment.
    pub end: u64,
    /// The starting byte offset of the subsegment.
    pub start: u64,
}

/// Segment Index Box (sidx) - provides index information for media subsegments.
///
/// This box defines the subsegment structure, mapping them to specific byte ranges
/// inside the media container.
#[derive(Debug, Clone)]
pub struct SidxBox {
    /// The list of byte ranges for the indexed subsegments.
    pub ranges: Vec<SidxRange>,
}

/// `Ok(acc + v)` for `Ok(v)`, the error otherwise.
pub open spec fn prepend_ranges(acc: Seq<SidxRange>, r: Result<Seq<SidxRange>, Error>) -> Result<
    Seq<SidxRange>,
    Error,
> {
    match r {
        Ok(v) => Ok(acc + v),
        Err(e) => Err(e),
    }
}

/// The `n`-byte value at `e` in `p`, in big-endian order where `be`, little-endian
/// otherwise.
pub open spec fn value_at(p: Seq<u8>, e: int, n: int, be: bool) -> nat {
    endian_value(p.subrange(e, e + n), be)
}

/// The ranges of `n` references read from `p` at `e`, the first starting at byte `start`.
/// Each reference is 12 bytes: 1 bit of reference type and 31 bits of size, a 32-bit
/// duration, and 32 bits of SAP data.
pub open spec fn sidx_refs(p: Seq<u8>, be: bool, e: int, n: nat, start: int) -> Result<
    Seq<SidxRange>,
    Error,
>
    decreases n,
{
    if n == 0 {
        Ok(Seq::empty())
    } else if p.len() < e + 8 {
        Err(Error::UnexpectedEof)
    } else if p.len() < e + 12 {
        Err(Error::SkipOutOfBounds)
    } else {
        let chunk = value_at(p, e, 4, be);
        if chunk >= 0x8000_0000 {
            Err(Error::HierarchicalSidx)
        } else if start + chunk < 1 || start + chunk > u64::MAX {
            Err(Error::OffsetOverflow)
        } else {
            prepend_ranges(
                seq![SidxRange { end: (start + chunk - 1) as u64, start: start as u64 }],
                sidx_refs(p, be, e + 12, (n - 1) as nat, start + chunk),
            )
        }
    }
}

/// The offset of the first reference field (after the reference count).
pub open spec fn sidx_refs_at(version: u32) -> int {
    if version == 0 {
        20
    } else {
        28
    }
}

/// The ranges of a `sidx` box whose payload, from where its reading starts, is `p` (its
/// values in big-endian order where `be`), with the given version and size, and whose
/// first byte is at absolute offset `offset`.
pub open spec fn sidx_spec(
    p: Seq<u8>,
    be: bool,
    version: Option<u32>,
    size: int,
    offset: int,
) -> Result<
    Seq<SidxRange>,
    Error,
> {
    match version {
        None => Err(Error::MissingVersion),
        Some(v) => {
            let fo_end = sidx_refs_at(v) - 4;
            if p.len() < 4 {
                Err(Error::SkipOutOfBounds)
            } else if p.len() < 8 {
                Err(Error::UnexpectedEof)
            } else if value_at(p, 4, 4, be) == 0 {
                Err(Error::InvalidTimescale)
            } else if p.len() < fo_end {
                Err(Error::UnexpectedEof)
            } else if p.len() < fo_end + 2 {
                Err(Error::SkipOutOfBounds)
            } else if p.len() < fo_end + 4 {
                Err(Error::UnexpectedEof)
            } else {
                let first_offset = if v == 0 {
                    value_at(p, 12, 4, be)
                } else {
                    value_at(p, 16, 8, be)
                };
                let s = offset + size + first_offset;
                if s > u64::MAX {
                    Err(Error::OffsetOverflow)
                } else {
                    sidx_refs(p, be, fo_end + 4, value_at(p, fo_end + 2, 2, be), s)
                }
            }
        },
    }
}

/// The ranges are consecutive: each starts right after the previous one ends.
pub open spec fn contiguous(r: Seq<SidxRange>) -> bool {
    forall|i: int| 0 <= i < r.len() - 1 ==> (#[trigger] r[i + 1]).start == r[i].end + 1
}

proof fn lemma_refs_contiguous(p: Seq<u8>, be: bool, e: int, n: nat, start: int)
    requires
        sidx_refs(p, be, e, n, start) is Ok,
        0 <= start <= u64::MAX,
    ensures
        ({
            let r = sidx_refs(p, be, e, n, start)->Ok_0;
            &&& r.len() == n
            &&& contiguous(r)
            &&& r.len() > 0 ==> r[0].start == start
            &&& forall|i: int| 0 <= i < r.len() ==> (#[trigger] r[i]).start <= r[i].end + 1
        }),
    decreases n,
{
    if n > 0 {
        let chunk = value_at(p, e, 4, be);
        lemma_refs_contiguous(p, be, e + 12, (n - 1) as nat, start + chunk);
        let rest = sidx_refs(p, be, e + 12, (n - 1) as nat, start + chunk)->Ok_0;
        let head = SidxRange { end: (start + chunk - 1) as u64, start: start as u64 };
        let r = seq![head] + rest;
        assert(sidx_refs(p, be, e, n, start) == Ok::<Seq<SidxRange>, Error>(r));
        assert forall|i: int| 0 <= i < r.len() - 1 implies (#[trigger] r[i + 1]).start == r[i].end
            + 1 by {
            if i == 0 {
                assert(rest.len() == n - 1);
                assert(r[1] == rest[0]);
                assert(rest[0].start == start + chunk);
                assert(r[0] == head);
            }
            if i > 0 {
                let j = i - 1;
                assert(rest[j + 1].start == rest[j].end + 1);
                assert(r[i] == rest[j]);
                assert(r[i + 1] == rest[j + 1]);
            }
        }
        assert forall|i: int| 0 <= i < r.len() implies (#[trigger] r[i]).start <= r[i].end + 1 by {
            if i > 0 {
                assert(r[i] == rest[i - 1]);
            }
        }
    }
}

/// The rule set that finds the first top-level `sidx` box.
pub open spec fn sidx_rules() -> Seq<BoxRule> {
    seq![BoxRule { box_type: SIDX, full: true, action: BoxAction::EmitThenStop }]
}

impl SidxBox {
    /// Finds the first top-level `sidx` box of `data` and parses it, its first byte
    /// being at absolute offset `offset`.
    ///
    /// Returns `None` when the data holds no top-level `sidx` box.
    pub fn from_init(data: &[u8], offset: u64) -> (r: Result<Option<Self>, Error>)
        ensures
            ({
                let w = walk(sidx_rules(), data@, 0, 0, false, false);
                if w.events.len() > 0 {
                    let b = w.events[0];
                    match sidx_spec(b.payload, true, b.version, b.size, offset as int) {
                        Ok(v) => r matches Ok(Some(s)) && s.ranges@ == v,
                        Err(e) => r == Err::<Option<Self>, Error>(e),
                    }
                } else {
                    match w.err {
                        Some(e) => r == Err::<Option<Self>, Error>(e),
                        None => r matches Ok(None),
                    }
                }
            }),
    {
        let parser = Mp4Parser::new().full_box(SIDX, BoxAction::EmitThenStop);
        assert(parser.rules() =~= sidx_rules());
        let (mut boxes, res) = parser.parse(data, false, false);
        if boxes.len() > 0 {
            let mut b = boxes.swap_remove(0);
            assert(b.view_box() == walk(sidx_rules(), data@, 0, 0, false, false).events[0]);
            assert(b.reader.remaining() =~= b.reader.data());
            match Self::new(&mut b, offset) {
                Ok(s) => Ok(Some(s)),
                Err(e) => Err(e),
            }
        } else {
            match res {
                Ok(()) => Ok(None),
                Err(e) => Err(e),
            }
        }
    }

    /// Parses a `sidx` box from a `ParsedBox` whose first byte is at absolute offset
    /// `offset`, reading its payload from where the box's reader stands: the first
    /// subsegment starts `first_offset` bytes after the end of the box, and each one ends
    /// where the next begins.
    pub fn new(box_: &mut ParsedBox, offset: u64) -> (r: Result<Self, Error>)
        ensures
            match sidx_spec(
                old(box_).reader.remaining(),
                old(box_).reader.big_endian(),
                old(box_).version,
                old(box_).size as int,
                offset as int,
            ) {
                Ok(v) => r matches Ok(s) && s.ranges@ == v,
                Err(e) => r == Err::<Self, Error>(e),
            },
            r matches Ok(s) ==> contiguous(s.ranges@) && forall|i: int|
                0 <= i < s.ranges@.len() ==> (#[trigger] s.ranges@[i]).start <= s.ranges@[i].end
                    + 1,
    {
        let ghost data = box_.reader.data();
        let ghost pos0 = box_.reader.position() as int;
        let ghost be = box_.reader.big_endian();
        let ghost p = box_.reader.remaining();
        let ghost spec = sidx_spec(p, be, box_.version, box_.size as int, offset as int);
        let _ = box_.reader.get_position();
        let version = match box_.version {
            Some(v) => v,
            None => {
                return Err(Error::MissingVersion);
            },
        };
        let size = box_.size;
        let reader = &mut box_.reader;
        let _ = reader.skip(4)?;
        proof {
            if p.len() >= 8 {
                assert(reader.peek(4) =~= p.subrange(4, 8));
            }
        }
        let timescale = reader.read_u32()?;
        if timescale == 0 {
            return Err(Error::InvalidTimescale);
        }
        let first_offset: u64 = if version == 0 {
            let _ept = reader.read_u32()?;
            proof {
                if p.len() >= 16 {
                    assert(reader.peek(4) =~= p.subrange(12, 16));
                }
            }
            reader.read_u32()? as u64
        } else {
            let _ept = reader.read_u64()?;
            proof {
                if p.len() >= 24 {
                    assert(reader.peek(8) =~= p.subrange(16, 24));
                }
            }
            reader.read_u64()?
        };
        let _ = reader.skip(2)?;
        let ghost e0 = sidx_refs_at(version);
        proof {
            if p.len() >= e0 {
                assert(reader.peek(2) =~= p.subrange(e0 - 2, e0));
            }
        }
        let reference_count = reader.read_u16()?;
        let mut start_byte: u64 = match offset.checked_add(size) {
            Some(x) => match x.checked_add(first_offset) {
                Some(y) => y,
                None => {
                    return Err(Error::OffsetOverflow);
                },
            },
            None => {
                return Err(Error::OffsetOverflow);
            },
        };
        let ghost s0 = start_byte as int;
        assert(spec == sidx_refs(p, be, e0, reference_count as nat, s0));
        let mut references: Vec<SidxRange> = Vec::new();
        let mut i: u16 = 0;
        while i < reference_count
            invariant
                reader.data() == data,
                reader.big_endian() == be,
                p == data.subrange(pos0, data.len() as int),
                0 <= pos0 <= data.len(),
                e0 == sidx_refs_at(version),
                spec == sidx_spec(
                    old(box_).reader.remaining(),
                    old(box_).reader.big_endian(),
                    old(box_).version,
                    old(box_).size as int,
                    offset as int,
                ),
                reader.position() == pos0 + e0 + 12 * i,
                i <= reference_count,
                spec == prepend_ranges(
                    references@,
                    sidx_refs(p, be, e0 + 12 * i, (reference_count - i) as nat, start_byte as int),
                ),
            decreases reference_count - i,
        {
            let ghost e = e0 + 12 * i;
            let ghost n = (reference_count - i) as nat;
            proof {
                assert(p.len() == data.len() - pos0);
                if p.len() < e + 8 {
                    assert(sidx_refs(p, be, e, n, start_byte as int) == Err::<
                        Seq<SidxRange>,
                        Error,
                    >(Error::UnexpectedEof));
                } else if p.len() < e + 12 {
                    assert(sidx_refs(p, be, e, n, start_byte as int) == Err::<
                        Seq<SidxRange>,
                        Error,
                    >(Error::SkipOutOfBounds));
                }
                if p.len() >= e + 4 {
                    assert(reader.position() + 4 <= data.len());
                    assert forall|k: int| 0 <= k < 4 implies reader.peek(4)[k] == p.subrange(
                        e,
                        e + 4,
                    )[k] by {
                        assert(data.subrange(pos0, data.len() as int)[e + k] == data[pos0 + e + k]);
                    }
                    assert(reader.peek(4) =~= p.subrange(e, e + 4));
                }
            }
            let chunk = reader.read_u32()?;
            let _duration = reader.read_u32()?;
            let _ = reader.skip(4)?;
            if chunk >= 0x8000_0000 {
                return Err(Error::HierarchicalSidx);
            }
            let reference_size = chunk as u64;
            if reference_size > u64::MAX - start_byte || start_byte + reference_size == 0 {
                return Err(Error::OffsetOverflow);
            }
            let range = SidxRange { end: start_byte + reference_size - 1, start: start_byte };
            proof {
                let rest = sidx_refs(p, be, e + 12, (n - 1) as nat, start_byte + reference_size);
                assert(sidx_refs(p, be, e, n, start_byte as int) == prepend_ranges(seq![range], rest));
                match rest {
                    Ok(v) => {
                        assert(references@.push(range) + v =~= references@ + (seq![range] + v));
                    },
                    Err(_) => {},
                }
            }
            references.push(range);
            start_byte = start_byte + reference_size;
            i = i + 1;
        }
        proof {
            assert(references@ + Seq::<SidxRange>::empty() =~= references@);
            if spec is Ok {
                lemma_refs_contiguous(p, be, e0, reference_count as nat, s0);
            }
        }
        Ok(SidxBox { ranges: references })
    }
}

} // verus!
