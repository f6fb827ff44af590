//! Decryption of Common Encryption (CENC) protected fragmented MP4 data.
use crate::mp4::boxes::schm::SchmBox;
use crate::mp4::boxes::senc::{sample_views, senc_spec, SencBox, SencSampleView};
use crate::mp4::boxes::tenc::{tenc_spec, TencBox};
use crate::mp4::boxes::trun::{trun_spec, TrunBox, TrunSample};
use crate::mp4::decrypt::cipher::{decrypted_sample, mode_of, CencProcessor, CipherMode};
use crate::mp4::decrypt::reader::{box_span, init_walk, mdat_type, moof_type, next_box, Mp4Reader};
use crate::mp4::error::Error;
use crate::mp4::hex::{decode_hex, hex_bytes, hex_error_text, is_hex};
use crate::mp4::parser::{
    all_fresh, be_at, boxes_view, walk, BoxAction, BoxRule, BoxView, Mp4Parser, ParsedBox, ENCA,
    ENCV, MDIA, MINF, MOOF, MOOV, SCHI, SCHM, SENC, SINF, STBL, STSD, TENC, TRAF, TRAK, TRUN,
};
use vstd::prelude::*;
use vstd::string::StringSliceAdditionalSpecFns;
use vstd::slice::{slice_subrange, slice_to_vec};

verus! {

/// The encryption parameters of a track, from its `schm` and `tenc` boxes.
#[derive(Clone, Copy, Debug)]
pub struct Tenc {
    /// The scheme as a four character code; 0 when the track has no `schm` box.
    pub scheme_type: u32,
    pub per_sample_iv_size: u8,
    pub constant_iv: Option<[u8; 16]>,
    pub crypt_byte_block: u8,
    pub skip_byte_block: u8,
}

/// The content of a track's encryption parameters.
pub struct TencParams {
    pub scheme_type: u32,
    pub per_sample_iv_size: u8,
    pub constant_iv: Option<Seq<u8>>,
    pub crypt_byte_block: u8,
    pub skip_byte_block: u8,
}

pub open spec fn iv_view(c: Option<[u8; 16]>) -> Option<Seq<u8>> {
    match c {
        Some(a) => Some(a@),
        None => None,
    }
}

impl Tenc {
    pub open spec fn params(&self) -> TencParams {
        TencParams {
            scheme_type: self.scheme_type,
            per_sample_iv_size: self.per_sample_iv_size,
            constant_iv: iv_view(self.constant_iv),
            crypt_byte_block: self.crypt_byte_block,
            skip_byte_block: self.skip_byte_block,
        }
    }
}

/// The parameters of a track without `schm` and `tenc` boxes.
pub open spec fn no_tenc() -> TencParams {
    TencParams {
        scheme_type: 0,
        per_sample_iv_size: 0,
        constant_iv: None,
        crypt_byte_block: 0,
        skip_byte_block: 0,
    }
}

/// The box types walked to find the encryption parameters of a track.
pub open spec fn init_rules() -> Seq<BoxRule> {
    seq![
        BoxRule { box_type: ENCA, full: false, action: BoxAction::AudioSampleEntry },
        BoxRule { box_type: ENCV, full: false, action: BoxAction::VisualSampleEntry },
        BoxRule { box_type: MDIA, full: false, action: BoxAction::Children },
        BoxRule { box_type: MINF, full: false, action: BoxAction::Children },
        BoxRule { box_type: MOOV, full: false, action: BoxAction::Children },
        BoxRule { box_type: SCHI, full: false, action: BoxAction::Children },
        BoxRule { box_type: SINF, full: false, action: BoxAction::Children },
        BoxRule { box_type: STBL, full: false, action: BoxAction::Children },
        BoxRule { box_type: STSD, full: true, action: BoxAction::SampleDescription },
        BoxRule { box_type: TRAK, full: false, action: BoxAction::Children },
        BoxRule { box_type: SCHM, full: true, action: BoxAction::Emit },
        BoxRule { box_type: TENC, full: true, action: BoxAction::EmitThenStop },
    ]
}

/// The parameters after the reported `schm` and `tenc` boxes `ev[k..]`, starting from
/// `t`: a `schm` box sets the scheme, a `tenc` box the rest; the first box that does not
/// parse ends with its error.
pub open spec fn fold_tenc(ev: Seq<BoxView>, k: int, t: TencParams) -> Result<TencParams, Error>
    decreases ev.len() - k,
{
    if k < 0 || k >= ev.len() {
        Ok(t)
    } else {
        let b = ev[k];
        if b.box_type == SCHM {
            if b.payload.len() < 8 {
                Err(Error::UnexpectedEof)
            } else {
                fold_tenc(ev, k + 1, TencParams { scheme_type: be_at(b.payload, 0, 4) as u32, ..t })
            }
        } else {
            match b.version {
                None => Err(Error::MissingVersion),
                Some(v) => match tenc_spec(b.payload, v) {
                    Err(e) => Err(e),
                    Ok(tv) => fold_tenc(
                        ev,
                        k + 1,
                        TencParams {
                            per_sample_iv_size: tv.per_sample_iv_size,
                            constant_iv: tv.constant_iv,
                            crypt_byte_block: tv.crypt_byte_block,
                            skip_byte_block: tv.skip_byte_block,
                            ..t
                        },
                    ),
                },
            }
        }
    }
}

/// The encryption parameters that `init` gives: its walk stops at the first `tenc` box.
pub open spec fn init_spec(init: Seq<u8>) -> Result<TencParams, Error> {
    let w = walk(init_rules(), init, 0, 0, true, true);
    match fold_tenc(w.events, 0, no_tenc()) {
        Err(e) => Err(e),
        Ok(t) => match w.err {
            Some(e) => Err(e),
            None => Ok(t),
        },
    }
}

/// The message of a key that is not hexadecimal: the hex decoder's error text after
/// `hex decode error: `.
pub open spec fn hex_key_error(t: Seq<u8>) -> Seq<char> {
    "hex decode error: "@ + hex_error_text(t)
}

/// The parameters as they stand before any box is seen.
fn empty_tenc() -> (t: Tenc)
    ensures
        t.params() == no_tenc(),
{
    Tenc {
        scheme_type: 0,
        per_sample_iv_size: 0,
        constant_iv: None,
        crypt_byte_block: 0,
        skip_byte_block: 0,
    }
}

/// Finds the encryption parameters of a track in `init` (its `moov` box, or a fragment
/// that repeats it): the scheme of the `schm` box and the `tenc` box's parameters.
fn parse_init(init: &[u8]) -> (r: Result<Tenc, Error>)
    ensures
        match init_spec(init@) {
            Ok(t) => r matches Ok(x) && x.params() == t,
            Err(e) => r == Err::<Tenc, Error>(e),
        },
{
    let parser = Mp4Parser::new().base_box(ENCA, BoxAction::AudioSampleEntry).base_box(
        ENCV,
        BoxAction::VisualSampleEntry,
    ).base_box(MDIA, BoxAction::Children).base_box(MINF, BoxAction::Children).base_box(
        MOOV,
        BoxAction::Children,
    ).base_box(SCHI, BoxAction::Children).base_box(SINF, BoxAction::Children).base_box(
        STBL,
        BoxAction::Children,
    ).full_box(STSD, BoxAction::SampleDescription).base_box(TRAK, BoxAction::Children).full_box(
        SCHM,
        BoxAction::Emit,
    ).full_box(TENC, BoxAction::EmitThenStop);
    assert(parser.rules() =~= init_rules());
    let (mut boxes, res) = parser.parse(init, true, true);
    let ghost ev = walk(init_rules(), init@, 0, 0, true, true).events;
    let mut tenc = empty_tenc();
    let mut k: usize = 0;
    while k < boxes.len()
        invariant
            ev == walk(init_rules(), init@, 0, 0, true, true).events,
            boxes@.len() == ev.len(),
            k <= boxes@.len(),
            forall|j: int| k <= j < boxes@.len() ==> (#[trigger] boxes@[j]).fresh(),
            forall|j: int| k <= j < boxes@.len() ==> (#[trigger] boxes@[j]).view_box() == ev[j],
            fold_tenc(ev, k as int, tenc.params()) == fold_tenc(ev, 0, no_tenc()),
        decreases boxes.len() - k,
    {
        proof {
            assert(boxes@[k as int].view_box() == ev[k as int]);
        }
        if boxes[k].box_type == SCHM {
            let schm = SchmBox::new(&mut boxes[k])?;
            tenc.scheme_type = schm.scheme_type;
        } else {
            if boxes[k].version.is_none() {
                return Err(Error::MissingVersion);
            }
            let t = TencBox::new(&mut boxes[k])?;
            tenc.per_sample_iv_size = t.per_sample_iv_size;
            tenc.constant_iv = t.constant_iv;
            tenc.crypt_byte_block = t.crypt_byte_block;
            tenc.skip_byte_block = t.skip_byte_block;
        }
        k = k + 1;
    }
    match res {
        Err(e) => Err(e),
        Ok(()) => Ok(tenc),
    }
}

/// The text of a key as decoded: ASCII letters in lower case, hyphens removed.
pub open spec fn key_text(b: Seq<u8>) -> Seq<u8>
    decreases b.len(),
{
    if b.len() == 0 {
        Seq::empty()
    } else {
        let c = b.last();
        key_text(b.drop_last()) + if c == 0x2d {
            Seq::empty()
        } else if 0x41 <= c <= 0x5a {
            seq![(c + 32) as u8]
        } else {
            seq![c]
        }
    }
}

/// The box types walked to find the sample layout of a fragment.
pub open spec fn frag_rules() -> Seq<BoxRule> {
    seq![
        BoxRule { box_type: TRAF, full: false, action: BoxAction::Children },
        BoxRule { box_type: MOOF, full: false, action: BoxAction::EmitThenChildren },
        BoxRule { box_type: SENC, full: true, action: BoxAction::Emit },
        BoxRule { box_type: TRUN, full: true, action: BoxAction::Emit },
    ]
}

/// What the boxes of a fragment give: where its `moof` box starts, the samples of its
/// `senc` box, and the samples and data offset of its `trun` box (the last of each).
pub struct FragState {
    pub start: int,
    pub senc: Option<Seq<SencSampleView>>,
    pub trun: Option<Seq<TrunSample>>,
    pub data_offset: Option<u32>,
}

/// The fragment state after the reported boxes `ev[k..]`; the first box that does not
/// parse ends with its error.
pub open spec fn fold_frag(
    ev: Seq<BoxView>,
    k: int,
    st: FragState,
    iv_size: u8,
    civ: Option<Seq<u8>>,
) -> Result<FragState, Error>
    decreases ev.len() - k,
{
    if k < 0 || k >= ev.len() {
        Ok(st)
    } else {
        let b = ev[k];
        if b.box_type == MOOF {
            fold_frag(ev, k + 1, FragState { start: b.start, ..st }, iv_size, civ)
        } else if b.box_type == SENC {
            match b.flags {
                None => Err(Error::MissingFlags),
                Some(f) => match senc_spec(b.payload, f, iv_size, civ) {
                    Err(e) => Err(e),
                    Ok(v) => fold_frag(ev, k + 1, FragState { senc: Some(v), ..st }, iv_size, civ),
                },
            }
        } else {
            match b.flags {
                None => Err(Error::MissingFlags),
                Some(f) => match trun_spec(b.payload, f) {
                    Err(e) => Err(e),
                    Ok(v) => fold_frag(
                        ev,
                        k + 1,
                        FragState { trun: Some(v.samples), data_offset: v.data_offset, ..st },
                        iv_size,
                        civ,
                    ),
                },
            }
        }
    }
}

/// The data after decrypting the samples from the `k`-th on, the next one starting at
/// `offset`: samples of size 0 are passed over, and the first that runs past the end of
/// the data ends the work.
pub open spec fn decrypt_samples(
    t: TencParams,
    key: Seq<u8>,
    data: Seq<u8>,
    trun: Seq<TrunSample>,
    senc: Seq<SencSampleView>,
    k: int,
    offset: int,
) -> Seq<u8>
    decreases trun.len() - k,
{
    if k < 0 || k >= trun.len() || k >= senc.len() {
        data
    } else {
        let size: int = match trun[k].sample_size {
            Some(z) => z as int,
            None => 0,
        };
        if size == 0 {
            decrypt_samples(t, key, data, trun, senc, k + 1, offset)
        } else if offset < 0 || offset + size > data.len() {
            data
        } else {
            let out = decrypted_sample(
                mode_of(t.scheme_type),
                key,
                t.crypt_byte_block * 16,
                t.skip_byte_block * 16,
                data.subrange(offset, offset + size),
                senc[k].iv,
                senc[k].subsamples,
            );
            decrypt_samples(
                t,
                key,
                data.take(offset) + out + data.skip(offset + size),
                trun,
                senc,
                k + 1,
                offset + size,
            )
        }
    }
}

/// The decrypted fragment `input`, with the track parameters `t`.
pub open spec fn fragment_with(key: Seq<u8>, t: TencParams, input: Seq<u8>) -> Result<Seq<u8>, Error> {
    if t.scheme_type == 0 {
        Ok(input)
    } else {
        let w = walk(frag_rules(), input, 0, 0, true, true);
        let st0 = FragState { start: 0, senc: None, trun: None, data_offset: None };
        match fold_frag(w.events, 0, st0, t.per_sample_iv_size, t.constant_iv) {
            Err(e) => Err(e),
            Ok(st) => match w.err {
                Some(e) => Err(e),
                None => match (st.trun, st.senc) {
                    (Some(tr), Some(se)) => Ok(
                        decrypt_samples(
                            t,
                            key,
                            input,
                            tr,
                            se,
                            0,
                            st.start + match st.data_offset {
                                Some(d) => d as int,
                                None => 0int,
                            },
                        ),
                    ),
                    _ => Ok(input),
                },
            },
        }
    }
}

/// A decrypter for Common Encryption (CENC) protected ISO base media file format
/// streams, with a 16-byte key and, once known, the track's encryption parameters.
pub struct CencDecrypter {
    key: [u8; 16],
    tenc: Option<Tenc>,
}

impl CencDecrypter {
    /// The content key.
    pub closed spec fn key(&self) -> Seq<u8> {
        self.key@
    }

    /// The cached encryption parameters of the track.
    pub closed spec fn tenc(&self) -> Option<TencParams> {
        match self.tenc {
            Some(t) => Some(t.params()),
            None => None,
        }
    }

    /// Creates a decrypter from a key in hexadecimal (either case, hyphens allowed).
    ///
    /// Fails with `Other` and the hex decoder's message (`hex_key_error`) if the text is
    /// not hexadecimal, and with `InvalidKeySize` if it does not give exactly 16 bytes.
    pub fn new(key: &str) -> (r: Result<Self, Error>)
        ensures
            ({
                let t = key_text(key.spec_bytes());
                if !is_hex(t) {
                    r matches Err(Error::Other(m)) && m@ == hex_key_error(t)
                } else if hex_bytes(t).len() != 16 {
                    r == Err::<Self, Error>(Error::InvalidKeySize(hex_bytes(t).len() as usize))
                } else {
                    r matches Ok(d) && d.key() == hex_bytes(t) && d.tenc() is None
                }
            }),
    {
        let bytes = key.as_bytes();
        let mut text: Vec<u8> = Vec::new();
        let mut i: usize = 0;
        while i < bytes.len()
            invariant
                bytes@ == key.spec_bytes(),
                i <= bytes@.len(),
                text@ == key_text(bytes@.take(i as int)),
            decreases bytes.len() - i,
        {
            let c = bytes[i];
            if c == 0x2d {
            } else if 0x41 <= c && c <= 0x5a {
                text.push(c + 32);
            } else {
                text.push(c);
            }
            i = i + 1;
            proof {
                let b = bytes@.take(i as int);
                assert(b.drop_last() =~= bytes@.take(i - 1));
                assert(b.last() == c);
                assert(text@ =~= key_text(b));
            }
        }
        proof {
            assert(bytes@.take(bytes@.len() as int) =~= bytes@);
        }
        let decoded = match decode_hex(text.as_slice()) {
            Ok(v) => v,
            Err(e) => {
                let mut m = "hex decode error: ".to_owned();
                m.append(e.as_str());
                return Err(Error::Other(m));
            },
        };
        if decoded.len() != 16 {
            return Err(Error::InvalidKeySize(decoded.len()));
        }
        let mut k = [0u8; 16];
        let mut j: usize = 0;
        while j < 16
            invariant
                decoded@.len() == 16,
                j <= 16,
                k@.len() == 16,
                forall|m: int| 0 <= m < j ==> k@[m] == decoded@[m],
            decreases 16 - j,
        {
            k[j] = decoded[j];
            j = j + 1;
        }
        proof {
            assert(k@ =~= decoded@);
        }
        Ok(CencDecrypter { key: k, tenc: None })
    }

    /// Creates a decrypter from a key in hexadecimal and the initialization data of the
    /// track (its `moov` box), whose encryption parameters it keeps.
    pub fn with_init(key: &str, init: &[u8]) -> (r: Result<Self, Error>)
        ensures
            ({
                let t = key_text(key.spec_bytes());
                if !is_hex(t) {
                    r matches Err(Error::Other(m)) && m@ == hex_key_error(t)
                } else if hex_bytes(t).len() != 16 {
                    r == Err::<Self, Error>(Error::InvalidKeySize(hex_bytes(t).len() as usize))
                } else {
                    match init_spec(init@) {
                        Ok(p) => r matches Ok(d) && d.key() == hex_bytes(t) && d.tenc() == Some(p),
                        Err(e) => r == Err::<Self, Error>(e),
                    }
                }
            }),
    {
        let mut decrypter = Self::new(key)?;
        let tenc = parse_init(init)?;
        decrypter.tenc = Some(tenc);
        Ok(decrypter)
    }
}

/// The decrypted fragment `input`: the track parameters come from `init` when given,
/// else from those cached, else from the fragment itself.
pub open spec fn fragment_spec(
    key: Seq<u8>,
    cached: Option<TencParams>,
    input: Seq<u8>,
    init: Option<Seq<u8>>,
) -> Result<Seq<u8>, Error> {
    if input.len() == 0 {
        Ok(input)
    } else {
        let params = match init {
            Some(i) => init_spec(i),
            None => match cached {
                Some(t) => Ok(t),
                None => init_spec(input),
            },
        };
        match params {
            Err(e) => Err(e),
            Ok(t) => fragment_with(key, t, input),
        }
    }
}

/// The state that the reported boxes have built so far.
pub open spec fn frag_state(start: u64, senc: Option<SencBox>, trun: Option<TrunBox>) -> FragState {
    FragState {
        start: start as int,
        senc: match senc {
            Some(s) => Some(sample_views(s.samples@)),
            None => None,
        },
        trun: match trun {
            Some(t) => Some(t.sample_data@),
            None => None,
        },
        data_offset: match trun {
            Some(t) => t.data_offset,
            None => None,
        },
    }
}

impl CencDecrypter {
    /// Decrypts a fragment (a `moof` box followed by its `mdat` box) and returns it.
    ///
    /// The track's encryption parameters come from `init` when it is given, else from
    /// those the decrypter keeps, else from the fragment itself; a track without a
    /// scheme is returned as it is. All samples are taken to belong to one track.
    pub fn decrypt_fragment(&self, input: Vec<u8>, init: Option<&[u8]>) -> (r: Result<
        Vec<u8>,
        Error,
    >)
        ensures
            match fragment_spec(
                self.key(),
                self.tenc(),
                input@,
                match init {
                    Some(i) => Some(i@),
                    None => None,
                },
            ) {
                Ok(v) => r matches Ok(o) && o@ == v,
                Err(e) => r == Err::<Vec<u8>, Error>(e),
            },
            r matches Ok(o) ==> o@.len() == input@.len(),
    {
        if input.len() == 0 {
            return Ok(input);
        }
        let tenc = match init {
            Some(i) => parse_init(i)?,
            None => match &self.tenc {
                Some(t) => *t,
                None => parse_init(input.as_slice())?,
            },
        };
        self.decrypt_with(input, &tenc)
    }

    /// Decrypts a fragment with the track's encryption parameters.
    fn decrypt_with(&self, input: Vec<u8>, tenc: &Tenc) -> (r: Result<Vec<u8>, Error>)
        ensures
            match fragment_with(self.key(), tenc.params(), input@) {
                Ok(v) => r matches Ok(o) && o@ == v,
                Err(e) => r == Err::<Vec<u8>, Error>(e),
            },
            r matches Ok(o) ==> o@.len() == input@.len(),
    {
        if tenc.scheme_type == 0 {
            return Ok(input);
        }
        let parser = Mp4Parser::new().base_box(TRAF, BoxAction::Children).base_box(
            MOOF,
            BoxAction::EmitThenChildren,
        ).full_box(SENC, BoxAction::Emit).full_box(TRUN, BoxAction::Emit);
        assert(parser.rules() =~= frag_rules());
        let (mut boxes, res) = parser.parse(input.as_slice(), true, true);
        let ghost ev = walk(frag_rules(), input@, 0, 0, true, true).events;
        let ghost tp = tenc.params();
        let iv_size = tenc.per_sample_iv_size;
        let constant_iv = tenc.constant_iv;
        let mut start: u64 = 0;
        let mut senc: Option<SencBox> = None;
        let mut trun: Option<TrunBox> = None;
        let ghost st0 = FragState { start: 0, senc: None, trun: None, data_offset: None };
        let mut k: usize = 0;
        while k < boxes.len()
            invariant
                ev == walk(frag_rules(), input@, 0, 0, true, true).events,
                tp == tenc.params(),
                tenc.scheme_type != 0,
                st0 == (FragState { start: 0, senc: None, trun: None, data_offset: None }),
                boxes@.len() == ev.len(),
                k <= boxes@.len(),
                iv_size == tp.per_sample_iv_size,
                iv_view(constant_iv) == tp.constant_iv,
                forall|j: int| k <= j < boxes@.len() ==> (#[trigger] boxes@[j]).fresh(),
                forall|j: int| k <= j < boxes@.len() ==> (#[trigger] boxes@[j]).view_box() == ev[j],
                fold_frag(ev, k as int, frag_state(start, senc, trun), iv_size, tp.constant_iv)
                    == fold_frag(ev, 0, st0, iv_size, tp.constant_iv),
            decreases boxes.len() - k,
        {
            proof {
                assert(boxes@[k as int].view_box() == ev[k as int]);
            }
            if boxes[k].box_type == MOOF {
                start = boxes[k].start;
            } else if boxes[k].box_type == SENC {
                if boxes[k].flags.is_none() {
                    return Err(Error::MissingFlags);
                }
                let civ = match &constant_iv {
                    Some(c) => Some(c),
                    None => None,
                };
                let b = SencBox::new(&mut boxes[k], iv_size, civ)?;
                senc = Some(b);
            } else {
                if boxes[k].flags.is_none() {
                    return Err(Error::MissingFlags);
                }
                let b = TrunBox::new(&mut boxes[k])?;
                trun = Some(b);
            }
            k = k + 1;
        }
        match res {
            Err(e) => {
                return Err(e);
            },
            Ok(()) => {},
        }
        let (trun, senc) = match (trun, senc) {
            (Some(t), Some(s)) => (t, s),
            _ => {
                return Ok(input);
            },
        };
        let mut processor = CencProcessor::new(
            &self.key,
            tenc.crypt_byte_block,
            tenc.skip_byte_block,
            tenc.scheme_type,
        );
        let data_offset: u32 = match trun.data_offset {
            Some(d) => d,
            None => 0,
        };
        let mut offset: u128 = start as u128 + data_offset as u128;
        let output_len = input.len();
        let n = if trun.sample_data.len() < senc.samples.len() {
            trun.sample_data.len()
        } else {
            senc.samples.len()
        };
        let ghost tr = trun.sample_data@;
        let ghost se = sample_views(senc.samples@);
        let ghost key = self.key@;
        let ghost whole = decrypt_samples(tp, key, input@, tr, se, 0, offset as int);
        proof {
            assert(fragment_with(self.key(), tp, input@) == Ok::<Seq<u8>, Error>(whole));
        }
        let mut data = input;
        let mut i: usize = 0;
        while i < n
            invariant
                n <= tr.len(),
                n <= se.len(),
                n == tr.len() || n == se.len(),
                tr == trun.sample_data@,
                se == sample_views(senc.samples@),
                i <= n,
                offset <= 0x2_0000_0000_0000_0000u128,
                output_len <= usize::MAX,
                output_len == input@.len(),
                tp == tenc.params(),
                fragment_with(self.key(), tp, input@) == Ok::<Seq<u8>, Error>(whole),
                data@.len() == output_len,
                key == self.key@,
                processor.key() == key,
                processor.mode() == mode_of(tp.scheme_type),
                processor.crypt_size() == tp.crypt_byte_block * 16,
                processor.skip_size() == tp.skip_byte_block * 16,
                decrypt_samples(tp, key, data@, tr, se, i as int, offset as int) == whole,
            decreases n - i,
        {
            let size: u128 = match trun.sample_data[i].sample_size {
                Some(z) => z as u128,
                None => 0,
            };
            if size > 0 {
                let end = offset + size;
                if end > output_len as u128 {
                    return Ok(data);
                }
                let lo = offset as usize;
                let hi = end as usize;
                let mut buf = slice_to_vec(slice_subrange(data.as_slice(), lo, hi));
                let ghost before = data@;
                proof {
                    assert(se[i as int] == senc.samples@[i as int].view_sample());
                }
                processor.decrypt_sample_inplace(buf.as_mut_slice(), &senc.samples[i]);
                let mut j: usize = 0;
                while j < hi - lo
                    invariant
                        lo <= hi <= before.len(),
                        before.len() == output_len,
                        buf@.len() == hi - lo,
                        j <= hi - lo,
                        data@ == before.take(lo as int) + buf@.take(j as int) + before.skip(lo + j),
                    decreases hi - lo - j,
                {
                    data[lo + j] = buf[j];
                    j = j + 1;
                    proof {
                        assert(data@ =~= before.take(lo as int) + buf@.take(j as int) + before.skip(
                            lo + j,
                        ));
                    }
                }
                proof {
                    assert(buf@.take((hi - lo) as int) =~= buf@);
                }
                offset = end;
            }
            i = i + 1;
        }
        proof {
            assert(i as int >= tr.len() || i as int >= se.len());
        }
        Ok(data)
    }
}

/// Samples under an unknown scheme come out as they went in.
pub proof fn unknown_scheme_keeps_samples(
    t: TencParams,
    key: Seq<u8>,
    data: Seq<u8>,
    trun: Seq<TrunSample>,
    senc: Seq<SencSampleView>,
    k: int,
    offset: int,
)
    requires
        mode_of(t.scheme_type) == CipherMode::Unknown,
    ensures
        decrypt_samples(t, key, data, trun, senc, k, offset) == data,
    decreases trun.len() - k,
{
    if !(k < 0 || k >= trun.len() || k >= senc.len()) {
        let size: int = match trun[k].sample_size {
            Some(z) => z as int,
            None => 0,
        };
        if size == 0 {
            unknown_scheme_keeps_samples(t, key, data, trun, senc, k + 1, offset);
        } else if 0 <= offset && offset + size <= data.len() {
            assert(data.take(offset) + data.subrange(offset, offset + size) + data.skip(offset + size)
                =~= data);
            unknown_scheme_keeps_samples(t, key, data, trun, senc, k + 1, offset + size);
        }
    }
}

/// A fragment of a track without a scheme, or with a scheme other than `cenc`, `cens`,
/// `cbc1` and `cbcs`, is returned as it is whenever it parses.
pub proof fn unprotected_fragment_unchanged(key: Seq<u8>, t: TencParams, input: Seq<u8>)
    requires
        t.scheme_type == 0 || mode_of(t.scheme_type) == CipherMode::Unknown,
    ensures
        fragment_with(key, t, input) is Ok ==> fragment_with(key, t, input) == Ok::<Seq<u8>, Error>(
            input,
        ),
{
    if t.scheme_type != 0 {
        let w = walk(frag_rules(), input, 0, 0, true, true);
        let st0 = FragState { start: 0, senc: None, trun: None, data_offset: None };
        match fold_frag(w.events, 0, st0, t.per_sample_iv_size, t.constant_iv) {
            Ok(st) => match (st.trun, st.senc) {
                (Some(tr), Some(se)) => {
                    let off = st.start + match st.data_offset {
                        Some(d) => d as int,
                        None => 0int,
                    };
                    unknown_scheme_keeps_samples(t, key, input, tr, se, 0, off);
                },
                _ => {},
            },
            Err(_) => {},
        }
    }
}

/// Where the fragment that starts with a `moof` box ending at `pos` ends: after the
/// first `mdat` box that follows, or at the end of the stream.
pub open spec fn gather_end(input: Seq<u8>, pos: int) -> Option<Result<int, Error>>
    decreases input.len() - pos,
{
    if pos < 0 || pos > input.len() {
        Some(Ok(pos))
    } else {
        match box_span(input, pos) {
            None => None,
            Some(Err(e)) => Some(Err(e)),
            Some(Ok(None)) => Some(Ok(pos)),
            Some(Ok(Some((t, end)))) => if t == mdat_type() {
                Some(Ok(end))
            } else if end <= pos || end > input.len() {
                None
            } else {
                gather_end(input, end)
            },
        }
    }
}

/// A fragment decrypted with the track parameters `t`.
#[verifier::opaque]
pub open spec fn decrypted_fragment(key: Seq<u8>, t: TencParams, fragment: Seq<u8>) -> Result<
    Seq<u8>,
    Error,
> {
    fragment_spec(key, Some(t), fragment, None)
}

/// The stream from `pos` on with each fragment (a `moof` box up to the next `mdat` box)
/// decrypted with the track parameters `t`, and other boxes as they are.
pub open spec fn frag_walk(key: Seq<u8>, t: TencParams, input: Seq<u8>, pos: int) -> Option<
    Result<Seq<u8>, Error>,
>
    decreases input.len() - pos,
{
    if pos < 0 || pos > input.len() {
        Some(Ok(seq![]))
    } else {
        match box_span(input, pos) {
            None => None,
            Some(Err(e)) => Some(Err(e)),
            Some(Ok(None)) => Some(Ok(seq![])),
            Some(Ok(Some((ty, end)))) => if end <= pos || end > input.len() {
                None
            } else if ty == moof_type() {
                match gather_end(input, end) {
                    None => None,
                    Some(Err(e)) => Some(Err(e)),
                    Some(Ok(fend)) => if fend < end || fend > input.len() {
                        None
                    } else {
                        match decrypted_fragment(key, t, input.subrange(pos, fend)) {
                            Err(e) => Some(Err(e)),
                            Ok(v) => match frag_walk(key, t, input, fend) {
                                None => None,
                                Some(Err(e)) => Some(Err(e)),
                                Some(Ok(rest)) => Some(Ok(v + rest)),
                            },
                        }
                    },
                }
            } else {
                match frag_walk(key, t, input, end) {
                    None => None,
                    Some(Err(e)) => Some(Err(e)),
                    Some(Ok(rest)) => Some(Ok(input.subrange(pos, end) + rest)),
                }
            },
        }
    }
}

/// A decrypted stream, and the track parameters found for it: from `init` where it is
/// given, else from the boxes before the first fragment; a stream without fragments is
/// its boxes as they are. `None` where reading a box panics.
pub open spec fn stream_spec(key: Seq<u8>, input: Seq<u8>, init: Option<Seq<u8>>) -> Option<
    Result<(Seq<u8>, Option<TencParams>), Error>,
> {
    match init {
        Some(i) => match init_spec(i) {
            Err(e) => Some(Err(e)),
            Ok(t) => match frag_walk(key, t, input, 0) {
                None => None,
                Some(Err(e)) => Some(Err(e)),
                Some(Ok(out)) => Some(Ok((out, Some(t)))),
            },
        },
        None => match init_walk(input, 0) {
            None => None,
            Some(Err(e)) => Some(Err(e)),
            Some(Ok((ib, None))) => Some(Ok((ib, None))),
            Some(Ok((ib, Some(m)))) => match init_spec(ib) {
                Err(e) => Some(Err(e)),
                Ok(t) => match frag_walk(key, t, input, m) {
                    None => None,
                    Some(Err(e)) => Some(Err(e)),
                    Some(Ok(out)) => Some(Ok((ib + out, Some(t)))),
                },
            },
        },
    }
}

/// The track parameters a decrypter keeps after decrypting a stream: those found for it
/// once they are parsed, else those it had.
pub open spec fn stream_tenc(old: Option<TencParams>, input: Seq<u8>, init: Option<Seq<u8>>) -> Option<
    TencParams,
> {
    match init {
        Some(i) => match init_spec(i) {
            Ok(t) => Some(t),
            Err(_) => old,
        },
        None => match init_walk(input, 0) {
            Some(Ok((ib, Some(_)))) => match init_spec(ib) {
                Ok(t) => Some(t),
                Err(_) => old,
            },
            _ => old,
        },
    }
}

impl CencDecrypter {
    /// Where the fragment starting at a `moof` box that ends at `pos` ends.
    fn gather(input: &[u8], pos: usize) -> (r: Option<Result<usize, Error>>)
        requires
            pos <= input@.len(),
        ensures
            match (r, gather_end(input@, pos as int)) {
                (None, None) => true,
                (Some(Ok(a)), Some(Ok(b))) => a == b && pos <= a <= input@.len(),
                (Some(Err(a)), Some(Err(b))) => a == b,
                _ => false,
            },
    {
        let mut p = pos;
        while p <= input.len()
            invariant
                pos <= p <= input@.len(),
                gather_end(input@, pos as int) == gather_end(input@, p as int),
            decreases input@.len() - p,
        {
            match next_box(input, p) {
                None => {
                    return None;
                },
                Some(Err(e)) => {
                    return Some(Err(e));
                },
                Some(Ok(None)) => {
                    return Some(Ok(p));
                },
                Some(Ok(Some((t, end)))) => {
                    if t[0] == 0x6d && t[1] == 0x64 && t[2] == 0x61 && t[3] == 0x74 {
                        proof {
                            assert(t@ =~= mdat_type());
                        }
                        return Some(Ok(end));
                    }
                    proof {
                        if t@ == mdat_type() {
                            assert(t@[0] == 0x6du8);
                        }
                    }
                    p = end;
                },
            }
        }
        None
    }

    /// The fragment that starts with the `moof` box at `pos` (ending at `end`), decrypted,
    /// and where it ends.
    fn fragment_at(&self, input: &[u8], pos: usize, end: usize) -> (r: Option<
        Result<(Vec<u8>, usize), Error>,
    >)
        requires
            pos < end <= input@.len(),
            self.tenc() is Some,
        ensures
            match (r, gather_end(input@, end as int)) {
                (None, None) => true,
                (Some(Err(a)), Some(Err(b))) => a == b,
                (Some(Err(a)), Some(Ok(fend))) => end <= fend <= input@.len() && decrypted_fragment(
                    self.key(),
                    self.tenc()->0,
                    input@.subrange(pos as int, fend),
                ) == Err::<Seq<u8>, Error>(a),
                (Some(Ok((v, f))), Some(Ok(fend))) => f == fend && end <= fend <= input@.len()
                    && decrypted_fragment(
                    self.key(),
                    self.tenc()->0,
                    input@.subrange(pos as int, fend),
                ) == Ok::<Seq<u8>, Error>(v@),
                _ => false,
            },
    {
        let fend = match Self::gather(input, end) {
            None => {
                return None;
            },
            Some(Err(e)) => {
                return Some(Err(e));
            },
            Some(Ok(fend)) => fend,
        };
        let fragment = slice_to_vec(slice_subrange(input, pos, fend));
        proof {
            reveal(decrypted_fragment);
        }
        match self.decrypt_fragment(fragment, None) {
            Err(e) => Some(Err(e)),
            Ok(v) => Some(Ok((v, fend))),
        }
    }

    /// The stream from `pos` on with its fragments decrypted.
    fn walk_fragments(&self, input: &[u8], pos: usize) -> (r: Option<Result<Vec<u8>, Error>>)
        requires
            pos <= input@.len(),
            self.tenc() is Some,
        ensures
            match (r, frag_walk(self.key(), self.tenc()->0, input@, pos as int)) {
                (None, None) => true,
                (Some(Ok(a)), Some(Ok(b))) => a@ == b,
                (Some(Err(a)), Some(Err(b))) => a == b,
                _ => false,
            },
    {
        let ghost t = self.tenc()->0;
        let ghost key = self.key();
        let mut out: Vec<u8> = Vec::new();
        let mut p = pos;
        proof {
            assert(out@ + seq![] =~= out@);
            match frag_walk(key, t, input@, pos as int) {
                Some(Ok(rest)) => {
                    assert(seq![] + rest =~= rest);
                },
                _ => {},
            }
        }
        while p <= input.len()
            invariant
                pos <= p <= input@.len(),
                self.tenc() is Some,
                t == self.tenc()->0,
                key == self.key(),
                frag_walk(key, t, input@, pos as int) == match frag_walk(key, t, input@, p as int) {
                    Some(Ok(rest)) => Some(Ok(out@ + rest)),
                    other => other,
                },
            decreases input@.len() - p,
        {
            match next_box(input, p) {
                None => {
                    return None;
                },
                Some(Err(e)) => {
                    return Some(Err(e));
                },
                Some(Ok(None)) => {
                    proof {
                        assert(out@ + seq![] =~= out@);
                    }
                    return Some(Ok(out));
                },
                Some(Ok(Some((ty, end)))) => {
                    let is_moof = ty[0] == 0x6d && ty[1] == 0x6f && ty[2] == 0x6f && ty[3] == 0x66;
                    proof {
                        if is_moof {
                            assert(ty@ =~= moof_type());
                        }
                        if ty@ == moof_type() {
                            assert(ty@[0] == 0x6du8);
                        }
                    }
                    if is_moof {
                        let (mut v, fend) = match self.fragment_at(input, p, end) {
                            None => {
                                return None;
                            },
                            Some(Err(e)) => {
                                return Some(Err(e));
                            },
                            Some(Ok(x)) => x,
                        };
                        let ghost before = out@;
                        let ghost dv = v@;
                        out.append(&mut v);
                        proof {
                            match frag_walk(key, t, input@, fend as int) {
                                Some(Ok(rest)) => {
                                    assert(before + (dv + rest) =~= out@ + rest);
                                },
                                _ => {},
                            }
                        }
                        p = fend;
                    } else {
                        let mut b = slice_to_vec(slice_subrange(input, p, end));
                        let ghost before = out@;
                        out.append(&mut b);
                        proof {
                            match frag_walk(key, t, input@, end as int) {
                                Some(Ok(rest)) => {
                                    assert(before + (input@.subrange(p as int, end as int) + rest)
                                        =~= out@ + rest);
                                },
                                _ => {},
                            }
                        }
                        p = end;
                    }
                },
            }
        }
        None
    }

    /// Decrypts a whole stream: the boxes before the first fragment are kept as they are
    /// and give the track's encryption parameters (unless `init` gives them), and each
    /// fragment (a `moof` box up to the next `mdat` box) is decrypted; a stream without
    /// fragments is returned as it is. The decrypter keeps the parameters found.
    ///
    /// Fails where a box is cut short, where the parameters do not parse, or where a
    /// fragment does not decrypt; nothing of the stream is returned then.
    pub fn decrypt_stream(&mut self, input: &[u8], init: Option<&[u8]>) -> (r: Result<
        Vec<u8>,
        Error,
    >)
        requires
            stream_spec(
                old(self).key(),
                input@,
                match init {
                    Some(i) => Some(i@),
                    None => None,
                },
            ) is Some,
        ensures
            final(self).key() == old(self).key(),
            ({
                let iv = match init {
                    Some(i) => Some(i@),
                    None => None,
                };
                &&& final(self).tenc() == stream_tenc(old(self).tenc(), input@, iv)
                &&& match stream_spec(old(self).key(), input@, iv) {
                    Some(Ok((out, _))) => r matches Ok(v) && v@ == out,
                    Some(Err(e)) => r == Err::<Vec<u8>, Error>(e),
                    None => false,
                }
            }),
    {
        match self.try_decrypt_stream(input, init) {
            Some(r) => r,
            None => vstd::pervasive::unreached(),
        }
    }

    /// Decrypts a whole stream, or gives `None` where a box's size is smaller than its
    /// header (where `decrypt_stream` would panic).
    pub fn try_decrypt_stream(&mut self, input: &[u8], init: Option<&[u8]>) -> (r: Option<
        Result<Vec<u8>, Error>,
    >)
        ensures
            final(self).key() == old(self).key(),
            ({
                let iv = match init {
                    Some(i) => Some(i@),
                    None => None,
                };
                &&& (r is Some ==> final(self).tenc() == stream_tenc(old(self).tenc(), input@, iv))
                &&& match (r, stream_spec(old(self).key(), input@, iv)) {
                    (Some(Ok(v)), Some(Ok((out, _)))) => v@ == out,
                    (Some(Err(a)), Some(Err(b))) => a == b,
                    (None, None) => true,
                    _ => false,
                }
            }),
    {
        match init {
            Some(i) => {
                let t = match parse_init(i) {
                    Ok(t) => t,
                    Err(e) => {
                        return Some(Err(e));
                    },
                };
                self.tenc = Some(t);
                self.walk_fragments(input, 0)
            },
            None => {
                let (ib, m) = match Mp4Reader::try_init(input) {
                    None => {
                        return None;
                    },
                    Some(Err(e)) => {
                        return Some(Err(e));
                    },
                    Some(Ok(x)) => x,
                };
                let m = match m {
                    None => {
                        return Some(Ok(ib));
                    },
                    Some(m) => m,
                };
                proof {
                    lemma_init_walk_bound(input@, 0);
                }
                let t = match parse_init(ib.as_slice()) {
                    Ok(t) => t,
                    Err(e) => {
                        return Some(Err(e));
                    },
                };
                self.tenc = Some(t);
                let mut ib = ib;
                match self.walk_fragments(input, m) {
                    None => None,
                    Some(Err(e)) => Some(Err(e)),
                    Some(Ok(mut out)) => {
                        ib.append(&mut out);
                        Some(Ok(ib))
                    },
                }
            },
        }
    }
}

/// Decrypting a stream of a track without a scheme (or with an unknown one) gives back
/// its boxes as they are: what comes out is the stream from `pos` on, up to where the
/// last whole box ends.
pub proof fn unprotected_stream_unchanged(key: Seq<u8>, t: TencParams, input: Seq<u8>, pos: int)
    requires
        t.scheme_type == 0 || mode_of(t.scheme_type) == CipherMode::Unknown,
        0 <= pos <= input.len(),
    ensures
        frag_walk(key, t, input, pos) matches Some(Ok(out)) ==> pos + out.len() <= input.len()
            && out == input.subrange(pos, pos + out.len()),
    decreases input.len() - pos,
{
    match box_span(input, pos) {
        Some(Ok(Some((ty, end)))) => {
            if pos < end <= input.len() {
                if ty == moof_type() {
                    match gather_end(input, end) {
                        Some(Ok(fend)) => {
                            if end <= fend <= input.len() {
                                let frag = input.subrange(pos, fend);
                                reveal(decrypted_fragment);
                                unprotected_fragment_unchanged(key, t, frag);
                                unprotected_stream_unchanged(key, t, input, fend);
                                match frag_walk(key, t, input, fend) {
                                    Some(Ok(rest)) => {
                                        if decrypted_fragment(key, t, frag) is Ok {
                                            assert(frag + rest =~= input.subrange(
                                                pos,
                                                pos + frag.len() + rest.len(),
                                            ));
                                        }
                                    },
                                    _ => {},
                                }
                            }
                        },
                        _ => {},
                    }
                } else {
                    unprotected_stream_unchanged(key, t, input, end);
                    match frag_walk(key, t, input, end) {
                        Some(Ok(rest)) => {
                            assert(input.subrange(pos, end) + rest =~= input.subrange(
                                pos,
                                end + rest.len(),
                            ));
                        },
                        _ => {},
                    }
                }
            }
        },
        _ => {},
    }
}

/// The position of the first fragment lies within the stream.
proof fn lemma_init_walk_bound(input: Seq<u8>, pos: int)
    requires
        0 <= pos <= input.len(),
    ensures
        init_walk(input, pos) matches Some(Ok((_, Some(m)))) ==> pos <= m <= input.len(),
    decreases input.len() - pos,
{
    match box_span(input, pos) {
        Some(Ok(Some((t, end)))) => {
            if t != moof_type() && pos < end <= input.len() {
                lemma_init_walk_bound(input, end);
            }
        },
        _ => {},
    }
}

} // verus!
