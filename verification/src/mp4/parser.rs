//! A walker over the box structure of ISO base media file format data.
//!
//! Boxes are laid out as a 32-bit big-endian size, a four character type, an
//! optional 64-bit size (when the 32-bit size is 1) and, for full boxes, a version
//! byte and 24 bits of flags. A size of 0 means the box extends to the end of the
//! data that holds it. The walker is told, per box type, whether the box is a full
//! box and what to do with its payload; boxes of other types are skipped.
use crate::mp4::error::Error;
use crate::mp4::reader::{be_value, lemma_be4, lemma_be8, Reader};
use vstd::prelude::*;
use vstd::slice::{slice_subrange, slice_to_vec};

verus! {

/// The `moov` box type.
pub const MOOV: u32 = 0x6d6f_6f76;
/// The `moof` box type.
pub const MOOF: u32 = 0x6d6f_6f66;
/// The `traf` box type.
pub const TRAF: u32 = 0x7472_6166;
/// The `pssh` box type.
pub const PSSH: u32 = 0x7073_7368;
/// The `sidx` box type.
pub const SIDX: u32 = 0x7369_6478;
/// The `tfdt` box type.
pub const TFDT: u32 = 0x7466_6474;
/// The `enca` box type.
pub const ENCA: u32 = 0x656e_6361;
/// The `encv` box type.
pub const ENCV: u32 = 0x656e_6376;
/// The `mdia` box type.
pub const MDIA: u32 = 0x6d64_6961;
/// The `minf` box type.
pub const MINF: u32 = 0x6d69_6e66;
/// The `schi` box type.
pub const SCHI: u32 = 0x7363_6869;
/// The `sinf` box type.
pub const SINF: u32 = 0x7369_6e66;
/// The `stbl` box type.
pub const STBL: u32 = 0x7374_626c;
/// The `stsd` box type.
pub const STSD: u32 = 0x7374_7364;
/// The `trak` box type.
pub const TRAK: u32 = 0x7472_616b;
/// The `schm` box type.
pub const SCHM: u32 = 0x7363_686d;
/// The `tenc` box type.
pub const TENC: u32 = 0x7465_6e63;
/// The `senc` box type.
pub const SENC: u32 = 0x7365_6e63;
/// The `trun` box type.
pub const TRUN: u32 = 0x7472_756e;
/// The `mdat` box type.
pub const MDAT: u32 = 0x6d64_6174;

/// What the walker does with the payload of a box of a registered type.
#[derive(Clone, Copy, PartialEq, Eq, Structural)]
pub enum BoxAction {
    /// Walk the payload as a sequence of boxes.
    Children,
    /// Read a 32-bit entry count, then walk that many boxes (a `stsd` box).
    SampleDescription,
    /// Skip the 78 bytes of a visual sample entry, then walk the rest as boxes.
    VisualSampleEntry,
    /// Skip the 28 bytes of an audio sample entry, then walk the rest as boxes.
    AudioSampleEntry,
    /// Report the box.
    Emit,
    /// Report the box, then walk its payload as a sequence of boxes.
    EmitThenChildren,
    /// Report the box and stop the whole walk.
    EmitThenStop,
}

/// How a box type is handled.
#[derive(Clone, Copy, PartialEq, Eq, Structural)]
pub struct BoxRule {
    /// The box type as a big-endian four character code.
    pub box_type: u32,
    /// Whether the box is a full box (with version and flags).
    pub full: bool,
    /// What to do with the payload.
    pub action: BoxAction,
}

/// A box found by the walker.
pub struct ParsedBox {
    /// The box type as a big-endian four character code.
    pub box_type: u32,
    /// The version of a full box.
    pub version: Option<u32>,
    /// The flags of a full box.
    pub flags: Option<u32>,
    /// A big-endian reader over the payload (the bytes after the header).
    pub reader: Reader,
    /// The size of the box, header included, as given by its header.
    pub size: u64,
    /// The absolute offset of the box's first byte.
    pub start: u64,
    /// Whether the box header carries a 64-bit size.
    pub has_64bit_size: bool,
    /// The bytes of the box, header and payload.
    pub full: Vec<u8>,
}

/// The mathematical content of a reported box.
pub struct BoxView {
    pub box_type: u32,
    pub version: Option<u32>,
    pub flags: Option<u32>,
    pub payload: Seq<u8>,
    pub size: int,
    pub start: int,
    pub has_64bit_size: bool,
    pub full: Seq<u8>,
}

impl ParsedBox {
    pub open spec fn view_box(&self) -> BoxView {
        BoxView {
            box_type: self.box_type,
            version: self.version,
            flags: self.flags,
            payload: self.reader.data(),
            size: self.size as int,
            start: self.start as int,
            has_64bit_size: self.has_64bit_size,
            full: self.full@,
        }
    }

    /// The payload reader has not been read from yet.
    pub open spec fn fresh(&self) -> bool {
        self.reader.position() == 0 && self.reader.big_endian()
    }

    /// Returns the bytes of the whole box, header included.
    pub fn full_data(&self) -> (v: Vec<u8>)
        ensures
            v@ == self.full@,
    {
        slice_to_vec(self.full.as_slice())
    }
}

pub open spec fn boxes_view(v: Seq<ParsedBox>) -> Seq<BoxView> {
    v.map_values(|b: ParsedBox| b.view_box())
}

pub open spec fn all_fresh(v: Seq<ParsedBox>) -> bool {
    forall|i: int| 0 <= i < v.len() ==> (#[trigger] v[i]).fresh()
}

/// The first rule registered for a box type.
pub open spec fn find_rule(rules: Seq<BoxRule>, box_type: u32) -> Option<BoxRule>
    decreases rules.len(),
{
    if rules.len() == 0 {
        None
    } else if rules[0].box_type == box_type {
        Some(rules[0])
    } else {
        find_rule(rules.drop_first(), box_type)
    }
}

/// The outcome of walking: the boxes reported in order, the error that ended the
/// walk if any, whether a stop was requested, and (for one box) the position after it.
pub struct Walk {
    pub pos: int,
    pub events: Seq<BoxView>,
    pub err: Option<Error>,
    pub done: bool,
}

pub open spec fn walk_stop(pos: int) -> Walk {
    Walk { pos, events: Seq::empty(), err: None, done: true }
}

pub open spec fn walk_fail(pos: int, e: Error) -> Walk {
    Walk { pos, events: Seq::empty(), err: Some(e), done: false }
}

pub open spec fn be_at(data: Seq<u8>, i: int, n: int) -> nat {
    be_value(data.subrange(i, i + n))
}

/// Walk the boxes of `data` from `pos` to its end, or until an error or a stop.
/// `abs` is the absolute offset of `data[0]`; `partial_okay` lets a box that runs past
/// the end of the data be truncated; `stop_on_partial` ends the walk quietly at a
/// header or box that runs past the end.
pub open spec fn walk(
    rules: Seq<BoxRule>,
    data: Seq<u8>,
    pos: int,
    abs: int,
    partial_okay: bool,
    stop_on_partial: bool,
) -> Walk
    decreases data.len(), data.len() - pos, 2int,
{
    if pos < 0 || pos >= data.len() {
        Walk { pos, events: Seq::empty(), err: None, done: false }
    } else {
        let r = parse_next(rules, data, pos, abs, partial_okay, stop_on_partial);
        if r.err is Some || r.done || r.pos <= pos || r.pos > data.len() {
            r
        } else {
            let rest = walk(rules, data, r.pos, abs, partial_okay, stop_on_partial);
            Walk { pos: rest.pos, events: r.events + rest.events, err: rest.err, done: rest.done }
        }
    }
}

/// Walk `count` boxes of `data` from `pos` (the entries of a `stsd` box).
pub open spec fn walk_count(
    rules: Seq<BoxRule>,
    data: Seq<u8>,
    pos: int,
    abs: int,
    partial_okay: bool,
    stop_on_partial: bool,
    count: nat,
) -> Walk
    decreases data.len(), data.len() - pos, 2int,
{
    if count == 0 || pos < 0 || pos > data.len() {
        Walk { pos, events: Seq::empty(), err: None, done: false }
    } else {
        let r = parse_next(rules, data, pos, abs, partial_okay, stop_on_partial);
        if r.err is Some || r.done || r.pos <= pos || r.pos > data.len() {
            r
        } else {
            let rest = walk_count(
                rules,
                data,
                r.pos,
                abs,
                partial_okay,
                stop_on_partial,
                (count - 1) as nat,
            );
            Walk { pos: rest.pos, events: r.events + rest.events, err: rest.err, done: rest.done }
        }
    }
}

/// The result of reading a box header.
pub enum Header {
    /// The header runs past the end of the data and the walk stops quietly.
    Stop(int),
    /// The header runs past the end of the data: reading it fails.
    Fail(int),
    /// A complete header: type, whether a 64-bit size follows, the position after the
    /// size fields, and the box size (the rest of the data when the size field is 0).
    Found { box_type: u32, has64: bool, cur: int, size: int },
}

pub open spec fn box_header(data: Seq<u8>, pos: int, stop_on_partial: bool) -> Header {
    let len = data.len() as int;
    if stop_on_partial && pos + 8 > len {
        Header::Stop(pos)
    } else if pos + 8 > len {
        Header::Fail(len)
    } else {
        let size32 = be_at(data, pos, 4);
        let box_type = be_at(data, pos + 4, 4) as u32;
        let has64 = size32 == 1;
        if has64 && stop_on_partial && pos + 16 > len {
            Header::Stop(pos + 8)
        } else if has64 && pos + 16 > len {
            Header::Fail(len)
        } else {
            Header::Found {
                box_type,
                has64,
                cur: if has64 {
                    pos + 16
                } else {
                    pos + 8
                },
                size: if size32 == 0 {
                    len - pos
                } else if has64 {
                    be_at(data, pos + 8, 8) as int
                } else {
                    size32 as int
                },
            }
        }
    }
}

/// The position after a box of an unregistered type: its end, kept within the data
/// and never before the end of its header.
pub open spec fn skip_to(len: int, pos: int, cur: int, size: int) -> int {
    if pos + size - cur < 0 {
        cur
    } else if pos + size - cur > len - cur {
        len
    } else {
        pos + size
    }
}

/// The result of locating the payload of a registered box.
pub enum Frame {
    Stop(int),
    Fail(int),
    /// The payload is `data[hdr..hdr + plen]`.
    Found { hdr: int, plen: int },
}

pub open spec fn box_frame(
    data: Seq<u8>,
    pos: int,
    cur: int,
    size: int,
    full: bool,
    partial_okay: bool,
    stop_on_partial: bool,
) -> Frame {
    let len = data.len() as int;
    if full && stop_on_partial && cur + 4 > len {
        Frame::Stop(cur)
    } else if full && cur + 4 > len {
        Frame::Fail(len)
    } else {
        let hdr = if full {
            cur + 4
        } else {
            cur
        };
        let end0 = pos + size;
        let end = if partial_okay && end0 > len {
            len
        } else {
            end0
        };
        if stop_on_partial && end > len {
            Frame::Stop(hdr)
        } else {
            let plen = if end - hdr > 0 {
                end - hdr
            } else {
                0
            };
            if hdr + plen > len {
                Frame::Fail(len)
            } else {
                Frame::Found { hdr, plen }
            }
        }
    }
}

/// The box reported for a registered box whose header and payload were read.
pub open spec fn box_view_at(
    data: Seq<u8>,
    pos: int,
    abs: int,
    box_type: u32,
    has64: bool,
    cur: int,
    size: int,
    full: bool,
    hdr: int,
    plen: int,
) -> BoxView {
    let vf = be_at(data, cur, 4);
    BoxView {
        box_type,
        version: if full {
            Some((vf / 0x100_0000) as u32)
        } else {
            None
        },
        flags: if full {
            Some((vf % 0x100_0000) as u32)
        } else {
            None
        },
        payload: data.subrange(hdr, hdr + plen),
        size,
        start: pos + abs,
        has_64bit_size: has64,
        full: data.subrange(pos, hdr + plen),
    }
}

/// Parse the one box that starts at `pos`.
pub open spec fn parse_next(
    rules: Seq<BoxRule>,
    data: Seq<u8>,
    pos: int,
    abs: int,
    partial_okay: bool,
    stop_on_partial: bool,
) -> Walk
    decreases data.len(), data.len() - pos, 1int,
{
    if pos < 0 {
        walk_fail(pos, Error::UnexpectedEof)
    } else {
        match box_header(data, pos, stop_on_partial) {
            Header::Stop(p) => walk_stop(p),
            Header::Fail(p) => walk_fail(p, Error::UnexpectedEof),
            Header::Found { box_type, has64, cur, size } => match find_rule(rules, box_type) {
                None => Walk {
                    pos: skip_to(data.len() as int, pos, cur, size),
                    events: Seq::empty(),
                    err: None,
                    done: false,
                },
                Some(rule) => match box_frame(
                    data,
                    pos,
                    cur,
                    size,
                    rule.full,
                    partial_okay,
                    stop_on_partial,
                ) {
                    Frame::Stop(p) => walk_stop(p),
                    Frame::Fail(p) => walk_fail(p, Error::UnexpectedEof),
                    Frame::Found { hdr, plen } => run_action(
                        rules,
                        data,
                        pos,
                        abs,
                        partial_okay,
                        stop_on_partial,
                        rule.action,
                        box_view_at(data, pos, abs, box_type, has64, cur, size, rule.full, hdr, plen),
                        hdr,
                        plen,
                    ),
                },
            },
        }
    }
}

/// What happens to a registered box whose payload is `data[hdr..hdr + plen]`.
pub open spec fn run_action(
    rules: Seq<BoxRule>,
    data: Seq<u8>,
    pos: int,
    abs: int,
    partial_okay: bool,
    stop_on_partial: bool,
    action: BoxAction,
    bx: BoxView,
    hdr: int,
    plen: int,
) -> Walk
    decreases data.len(), data.len() - pos, 0int,
{
    if !(0 <= pos && pos + 8 <= hdr && 0 <= plen && hdr + plen <= data.len()) {
        walk_fail(pos, Error::UnexpectedEof)
    } else {
        let payload = data.subrange(hdr, hdr + plen);
        let np = hdr + plen;
        let child_abs = abs + hdr;
        match action {
            BoxAction::Emit => Walk { pos: np, events: seq![bx], err: None, done: false },
            BoxAction::EmitThenStop => Walk { pos: np, events: seq![bx], err: None, done: true },
            BoxAction::Children => {
                let w = walk(rules, payload, 0, child_abs, partial_okay, stop_on_partial);
                Walk { pos: np, events: w.events, err: w.err, done: w.done }
            },
            BoxAction::EmitThenChildren => {
                let w = walk(rules, payload, 0, child_abs, partial_okay, stop_on_partial);
                Walk { pos: np, events: seq![bx] + w.events, err: w.err, done: w.done }
            },
            BoxAction::SampleDescription => {
                if plen < 4 {
                    walk_fail(np, Error::UnexpectedEof)
                } else {
                    let w = walk_count(
                        rules,
                        payload,
                        4,
                        child_abs,
                        partial_okay,
                        stop_on_partial,
                        be_at(payload, 0, 4),
                    );
                    Walk { pos: np, events: w.events, err: w.err, done: w.done }
                }
            },
            BoxAction::VisualSampleEntry => {
                if plen < 78 {
                    walk_fail(np, Error::SkipOutOfBounds)
                } else {
                    let w = walk(rules, payload, 78, child_abs, partial_okay, stop_on_partial);
                    Walk { pos: np, events: w.events, err: w.err, done: w.done }
                }
            },
            BoxAction::AudioSampleEntry => {
                if plen < 28 {
                    walk_fail(np, Error::SkipOutOfBounds)
                } else {
                    let w = walk(rules, payload, 28, child_abs, partial_okay, stop_on_partial);
                    Walk { pos: np, events: w.events, err: w.err, done: w.done }
                }
            },
        }
    }
}

/// The 32-bit big-endian value of `data[i..i + 4]`.
fn be32_at(data: &[u8], i: usize) -> (v: u32)
    requires
        i + 4 <= data@.len(),
    ensures
        v == be_at(data@, i as int, 4),
{
    let ghost b = data@.subrange(i as int, i + 4);
    proof {
        lemma_be4(b);
    }
    (data[i] as u32) * 0x100_0000 + (data[i + 1] as u32) * 0x1_0000 + (data[i + 2] as u32) * 0x100
        + (data[i + 3] as u32)
}

/// The 64-bit big-endian value of `data[i..i + 8]`.
fn be64_at(data: &[u8], i: usize) -> (v: u64)
    requires
        i + 8 <= data@.len(),
    ensures
        v == be_at(data@, i as int, 8),
{
    let _n = data.len();
    let hi = be32_at(data, i) as u64;
    let lo = be32_at(data, i + 4) as u64;
    proof {
        let b = data@.subrange(i as int, i + 8);
        lemma_be8(b);
        assert(b.subrange(0, 4) =~= data@.subrange(i as int, i + 4));
        assert(b.subrange(4, 8) =~= data@.subrange(i + 4, i + 8));
    }
    hi * 0x1_0000_0000 + lo
}

fn find_rule_exec(rules: &Vec<BoxRule>, box_type: u32) -> (r: Option<BoxRule>)
    ensures
        r == find_rule(rules@, box_type),
{
    let mut i: usize = 0;
    proof {
        assert(rules@.skip(0) =~= rules@);
    }
    while i < rules.len()
        invariant
            i <= rules@.len(),
            find_rule(rules@, box_type) == find_rule(rules@.skip(i as int), box_type),
        decreases rules@.len() - i,
    {
        proof {
            let t = rules@.skip(i as int);
            assert(t.drop_first() =~= rules@.skip(i + 1));
            assert(t[0] == rules@[i as int]);
        }
        if rules[i].box_type == box_type {
            return Some(rules[i]);
        }
        i = i + 1;
    }
    proof {
        assert(rules@.skip(i as int).len() == 0);
    }
    None
}

/// Appends a reported box; the view of the list grows by that box.
fn push_box(events: &mut Vec<ParsedBox>, b: ParsedBox)
    requires
        b.fresh(),
        all_fresh(old(events)@),
    ensures
        boxes_view(final(events)@) == boxes_view(old(events)@).push(b.view_box()),
        all_fresh(final(events)@),
{
    let ghost bv = b.view_box();
    events.push(b);
    proof {
        assert(boxes_view(events@) =~= boxes_view(old(events)@).push(bv));
    }
}

/// A box header read by `read_header`.
enum HeaderExec {
    Stop(usize),
    Fail(usize),
    Found { box_type: u32, has64: bool, cur: usize, size: u64 },
}

fn read_header(data: &[u8], pos: usize, stop_on_partial: bool) -> (h: HeaderExec)
    requires
        pos <= data@.len(),
    ensures
        match (h, box_header(data@, pos as int, stop_on_partial)) {
            (HeaderExec::Stop(p), Header::Stop(q)) => p == q && p <= data@.len(),
            (HeaderExec::Fail(p), Header::Fail(q)) => p == q && p <= data@.len(),
            (
                HeaderExec::Found { box_type, has64, cur, size },
                Header::Found { box_type: t, has64: h64, cur: c, size: sz },
            ) => box_type == t && has64 == h64 && cur == c && size == sz && pos + 8 <= cur
                <= data@.len(),
            _ => false,
        },
{
    let len = data.len();
    if stop_on_partial && len - pos < 8 {
        return HeaderExec::Stop(pos);
    }
    if len - pos < 8 {
        return HeaderExec::Fail(len);
    }
    let size32 = be32_at(data, pos);
    let box_type = be32_at(data, pos + 4);
    let has64 = size32 == 1;
    if has64 && stop_on_partial && len - pos < 16 {
        return HeaderExec::Stop(pos + 8);
    }
    if has64 && len - pos < 16 {
        return HeaderExec::Fail(len);
    }
    let cur: usize = if has64 {
        pos + 16
    } else {
        pos + 8
    };
    let size: u64 = if size32 == 0 {
        (len - pos) as u64
    } else if has64 {
        be64_at(data, pos + 8)
    } else {
        size32 as u64
    };
    HeaderExec::Found { box_type, has64, cur, size }
}

enum FrameExec {
    Stop(usize),
    Fail(usize),
    Found { hdr: usize, plen: usize },
}

fn read_frame(
    data: &[u8],
    pos: usize,
    cur: usize,
    size: u64,
    full: bool,
    partial_okay: bool,
    stop_on_partial: bool,
) -> (f: FrameExec)
    requires
        pos + 8 <= cur <= data@.len(),
    ensures
        match (
            f,
            box_frame(
                data@,
                pos as int,
                cur as int,
                size as int,
                full,
                partial_okay,
                stop_on_partial,
            ),
        ) {
            (FrameExec::Stop(p), Frame::Stop(q)) => p == q && p <= data@.len(),
            (FrameExec::Fail(p), Frame::Fail(q)) => p == q && p <= data@.len(),
            (FrameExec::Found { hdr, plen }, Frame::Found { hdr: h, plen: l }) => hdr == h && plen
                == l && cur <= hdr && hdr + plen <= data@.len(),
            _ => false,
        },
{
    let len = data.len();
    if full && stop_on_partial && len - cur < 4 {
        return FrameExec::Stop(cur);
    }
    if full && len - cur < 4 {
        return FrameExec::Fail(len);
    }
    let hdr: usize = if full {
        cur + 4
    } else {
        cur
    };
    // `pos + size` may lie beyond the data, so it is computed in u128.
    let end0: u128 = pos as u128 + size as u128;
    let end: u128 = if partial_okay && end0 > len as u128 {
        len as u128
    } else {
        end0
    };
    if stop_on_partial && end > len as u128 {
        return FrameExec::Stop(hdr);
    }
    let plen: u128 = if end > hdr as u128 {
        end - hdr as u128
    } else {
        0
    };
    if plen > (len - hdr) as u128 {
        return FrameExec::Fail(len);
    }
    FrameExec::Found { hdr, plen: plen as usize }
}

fn skip_to_exec(len: usize, pos: usize, cur: usize, size: u64) -> (p: usize)
    requires
        pos + 8 <= cur <= len,
    ensures
        p == skip_to(len as int, pos as int, cur as int, size as int),
        cur <= p <= len,
{
    let end0: u128 = pos as u128 + size as u128;
    if end0 < cur as u128 {
        cur
    } else if end0 - (cur as u128) > (len - cur) as u128 {
        len
    } else {
        end0 as usize
    }
}

/// Exec counterpart of `parse_next`: returns the next position, whether a stop was
/// requested, and the error that ended the walk, if any.
fn parse_next_exec(
    rules: &Vec<BoxRule>,
    data: &[u8],
    pos: usize,
    abs: u64,
    partial_okay: bool,
    stop_on_partial: bool,
    events: &mut Vec<ParsedBox>,
) -> (r: (usize, bool, Option<Error>))
    requires
        pos <= data@.len(),
        abs + data@.len() <= u64::MAX,
        all_fresh(old(events)@),
    ensures
        ({
            let w = parse_next(rules@, data@, pos as int, abs as int, partial_okay, stop_on_partial);
            &&& r.0 == w.pos
            &&& r.1 == w.done
            &&& r.2 == w.err
            &&& boxes_view(final(events)@) == boxes_view(old(events)@) + w.events
        }),
        r.0 <= data@.len(),
        all_fresh(final(events)@),
    decreases data@.len(), data@.len() - pos, 1int,
{
    let _n = data.len();
    let ghost old_events = boxes_view(events@);
    proof {
        assert(boxes_view(events@) =~= old_events + Seq::<BoxView>::empty());
    }
    match read_header(data, pos, stop_on_partial) {
        HeaderExec::Stop(p) => (p, true, None),
        HeaderExec::Fail(p) => (p, false, Some(Error::UnexpectedEof)),
        HeaderExec::Found { box_type, has64, cur, size } => match find_rule_exec(rules, box_type) {
            None => (skip_to_exec(data.len(), pos, cur, size), false, None),
            Some(rule) => match read_frame(
                data,
                pos,
                cur,
                size,
                rule.full,
                partial_okay,
                stop_on_partial,
            ) {
                FrameExec::Stop(p) => (p, true, None),
                FrameExec::Fail(p) => (p, false, Some(Error::UnexpectedEof)),
                FrameExec::Found { hdr, plen } => {
                    let (version, flags) = if rule.full {
                        let vf = be32_at(data, cur);
                        (Some(vf / 0x100_0000), Some(vf % 0x100_0000))
                    } else {
                        (None, None)
                    };
                    let b = ParsedBox {
                        box_type,
                        version,
                        flags,
                        reader: Reader::new_big_endian(slice_subrange(data, hdr, hdr + plen)),
                        size,
                        start: abs + pos as u64,
                        has_64bit_size: has64,
                        full: slice_to_vec(slice_subrange(data, pos, hdr + plen)),
                    };
                    assert(b.view_box() == box_view_at(
                        data@,
                        pos as int,
                        abs as int,
                        box_type,
                        has64,
                        cur as int,
                        size as int,
                        rule.full,
                        hdr as int,
                        plen as int,
                    ));
                    run_action_exec(
                        rules,
                        data,
                        pos,
                        abs,
                        partial_okay,
                        stop_on_partial,
                        rule.action,
                        b,
                        hdr,
                        plen,
                        events,
                    )
                },
            },
        },
    }
}

/// Exec counterpart of `run_action`.
#[verifier::rlimit(100)]
#[verifier::spinoff_prover]
fn run_action_exec(
    rules: &Vec<BoxRule>,
    data: &[u8],
    pos: usize,
    abs: u64,
    partial_okay: bool,
    stop_on_partial: bool,
    action: BoxAction,
    b: ParsedBox,
    hdr: usize,
    plen: usize,
    events: &mut Vec<ParsedBox>,
) -> (r: (usize, bool, Option<Error>))
    requires
        pos + 8 <= hdr,
        hdr + plen <= data@.len(),
        abs + data@.len() <= u64::MAX,
        all_fresh(old(events)@),
        b.fresh(),
    ensures
        ({
            let w = run_action(
                rules@,
                data@,
                pos as int,
                abs as int,
                partial_okay,
                stop_on_partial,
                action,
                b.view_box(),
                hdr as int,
                plen as int,
            );
            &&& r.0 == w.pos
            &&& r.1 == w.done
            &&& r.2 == w.err
            &&& boxes_view(final(events)@) == boxes_view(old(events)@) + w.events
        }),
        r.0 <= data@.len(),
        all_fresh(final(events)@),
    decreases data@.len(), data@.len() - pos, 0int,
{
    let _n = data.len();
    let ghost old_events = boxes_view(events@);
    let ghost bv = b.view_box();
    let np = hdr + plen;
    let payload = slice_subrange(data, hdr, np);
    let child_abs: u64 = abs + hdr as u64;
    let emit = match action {
        BoxAction::Emit => true,
        BoxAction::EmitThenStop => true,
        BoxAction::EmitThenChildren => true,
        _ => false,
    };
    if emit {
        push_box(events, b);
        proof {
            assert(boxes_view(events@) =~= old_events + seq![bv]);
        }
    } else {
        proof {
            assert(boxes_view(events@) =~= old_events + Seq::<BoxView>::empty());
        }
    }
    let ghost mid = boxes_view(events@);
    match action {
        BoxAction::Emit => (np, false, None),
        BoxAction::EmitThenStop => (np, true, None),
        BoxAction::Children => {
            let (done, err) = walk_exec(
                rules,
                payload,
                0,
                child_abs,
                partial_okay,
                stop_on_partial,
                events,
            );
            (np, done, err)
        },
        BoxAction::EmitThenChildren => {
            let (done, err) = walk_exec(
                rules,
                payload,
                0,
                child_abs,
                partial_okay,
                stop_on_partial,
                events,
            );
            proof {
                let w = walk(rules@, payload@, 0, child_abs as int, partial_okay, stop_on_partial);
                assert(mid == old_events + seq![bv]);
                assert(boxes_view(events@) =~= old_events + (seq![bv] + w.events));
            }
            (np, done, err)
        },
        BoxAction::SampleDescription => {
            if plen < 4 {
                return (np, false, Some(Error::UnexpectedEof));
            }
            let count = be32_at(payload, 0);
            let (done, err) = walk_count_exec(
                rules,
                payload,
                4,
                child_abs,
                partial_okay,
                stop_on_partial,
                count,
                events,
            );
            (np, done, err)
        },
        BoxAction::VisualSampleEntry => {
            if plen < 78 {
                return (np, false, Some(Error::SkipOutOfBounds));
            }
            let (done, err) = walk_exec(
                rules,
                payload,
                78,
                child_abs,
                partial_okay,
                stop_on_partial,
                events,
            );
            (np, done, err)
        },
        BoxAction::AudioSampleEntry => {
            if plen < 28 {
                return (np, false, Some(Error::SkipOutOfBounds));
            }
            let (done, err) = walk_exec(
                rules,
                payload,
                28,
                child_abs,
                partial_okay,
                stop_on_partial,
                events,
            );
            (np, done, err)
        },
    }
}

/// Exec counterpart of `walk`: returns whether a stop was requested and the error
/// that ended the walk, if any.
fn walk_exec(
    rules: &Vec<BoxRule>,
    data: &[u8],
    pos: usize,
    abs: u64,
    partial_okay: bool,
    stop_on_partial: bool,
    events: &mut Vec<ParsedBox>,
) -> (r: (bool, Option<Error>))
    requires
        pos <= data@.len(),
        abs + data@.len() <= u64::MAX,
        all_fresh(old(events)@),
    ensures
        ({
            let w = walk(rules@, data@, pos as int, abs as int, partial_okay, stop_on_partial);
            &&& r.0 == w.done
            &&& r.1 == w.err
            &&& boxes_view(final(events)@) == boxes_view(old(events)@) + w.events
        }),
        all_fresh(final(events)@),
    decreases data@.len(), data@.len() - pos, 2int,
{
    let ghost old_events = boxes_view(events@);
    if pos >= data.len() {
        proof {
            assert(boxes_view(events@) =~= old_events + Seq::<BoxView>::empty());
        }
        return (false, None);
    }
    let (np, done, err) = parse_next_exec(
        rules,
        data,
        pos,
        abs,
        partial_okay,
        stop_on_partial,
        events,
    );
    if err.is_some() || done || np <= pos {
        return (done, err);
    }
    let ghost mid = boxes_view(events@);
    let (done2, err2) = walk_exec(rules, data, np, abs, partial_okay, stop_on_partial, events);
    proof {
        let r = parse_next(rules@, data@, pos as int, abs as int, partial_okay, stop_on_partial);
        let rest = walk(rules@, data@, np as int, abs as int, partial_okay, stop_on_partial);
        assert(mid == old_events + r.events);
        assert(boxes_view(events@) =~= old_events + (r.events + rest.events));
    }
    (done2, err2)
}

/// Exec counterpart of `walk_count`.
fn walk_count_exec(
    rules: &Vec<BoxRule>,
    data: &[u8],
    pos: usize,
    abs: u64,
    partial_okay: bool,
    stop_on_partial: bool,
    count: u32,
    events: &mut Vec<ParsedBox>,
) -> (r: (bool, Option<Error>))
    requires
        pos <= data@.len(),
        abs + data@.len() <= u64::MAX,
        all_fresh(old(events)@),
    ensures
        ({
            let w = walk_count(
                rules@,
                data@,
                pos as int,
                abs as int,
                partial_okay,
                stop_on_partial,
                count as nat,
            );
            &&& r.0 == w.done
            &&& r.1 == w.err
            &&& boxes_view(final(events)@) == boxes_view(old(events)@) + w.events
        }),
        all_fresh(final(events)@),
    decreases data@.len(), data@.len() - pos, 2int,
{
    let ghost old_events = boxes_view(events@);
    if count == 0 {
        proof {
            assert(boxes_view(events@) =~= old_events + Seq::<BoxView>::empty());
        }
        return (false, None);
    }
    let (np, done, err) = parse_next_exec(
        rules,
        data,
        pos,
        abs,
        partial_okay,
        stop_on_partial,
        events,
    );
    if err.is_some() || done || np <= pos {
        return (done, err);
    }
    let ghost mid = boxes_view(events@);
    let (done2, err2) = walk_count_exec(
        rules,
        data,
        np,
        abs,
        partial_okay,
        stop_on_partial,
        count - 1,
        events,
    );
    proof {
        let r = parse_next(rules@, data@, pos as int, abs as int, partial_okay, stop_on_partial);
        let rest = walk_count(
            rules@,
            data@,
            np as int,
            abs as int,
            partial_okay,
            stop_on_partial,
            (count - 1) as nat,
        );
        assert(mid == old_events + r.events);
        assert(boxes_view(events@) =~= old_events + (r.events + rest.events));
    }
    (done2, err2)
}

/// A box walker configured with how to handle each box type of interest.
pub struct Mp4Parser {
    rules: Vec<BoxRule>,
}

impl Mp4Parser {
    /// The rules of this parser, in the order they were added.
    pub closed spec fn rules(&self) -> Seq<BoxRule> {
        self.rules@
    }

    /// Creates a parser with no box types registered.
    pub fn new() -> (p: Self)
        ensures
            p.rules() == Seq::<BoxRule>::empty(),
    {
        Mp4Parser { rules: Vec::new() }
    }

    /// Registers a box type without version and flags.
    pub fn base_box(self, box_type: u32, action: BoxAction) -> (p: Self)
        ensures
            p.rules() == self.rules().push(BoxRule { box_type, full: false, action }),
    {
        let mut rules = self.rules;
        rules.push(BoxRule { box_type, full: false, action });
        Mp4Parser { rules }
    }

    /// Registers a full box type (with version and flags).
    pub fn full_box(self, box_type: u32, action: BoxAction) -> (p: Self)
        ensures
            p.rules() == self.rules().push(BoxRule { box_type, full: true, action }),
    {
        let mut rules = self.rules;
        rules.push(BoxRule { box_type, full: true, action });
        Mp4Parser { rules }
    }

    /// Walks the boxes of `data` and returns the reported boxes in order, together with
    /// the error that ended the walk early, if any.
    pub fn parse(&self, data: &[u8], partial_okay: bool, stop_on_partial: bool) -> (r: (
        Vec<ParsedBox>,
        Result<(), Error>,
    ))
        ensures
            ({
                let w = walk(self.rules(), data@, 0, 0, partial_okay, stop_on_partial);
                &&& boxes_view(r.0@) == w.events
                &&& match w.err {
                    Some(e) => r.1 == Err::<(), Error>(e),
                    None => r.1 is Ok,
                }
            }),
            all_fresh(r.0@),
    {
        let _n = data.len();
        let mut events: Vec<ParsedBox> = Vec::new();
        proof {
            assert(boxes_view(events@) =~= Seq::<BoxView>::empty());
        }
        let (_done, err) = walk_exec(
            &self.rules,
            data,
            0,
            0,
            partial_okay,
            stop_on_partial,
            &mut events,
        );
        proof {
            assert(boxes_view(events@) =~= Seq::<BoxView>::empty() + walk(
                self.rules(),
                data@,
                0,
                0,
                partial_okay,
                stop_on_partial,
            ).events);
        }
        match err {
            Some(e) => (events, Err(e)),
            None => (events, Ok(())),
        }
    }
}

} // verus!
