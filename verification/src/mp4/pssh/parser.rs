//! `pssh` boxes of an initialization segment: the DRM system of each and the key IDs it
//! names.
use crate::mp4::b64::{b64_text, encode_base64};
use crate::mp4::error::Error;
use crate::mp4::hex::{encode_hex, hex_text};
use crate::mp4::parser::{be_at, walk, BoxAction, BoxRule, BoxView, Mp4Parser, ParsedBox, MOOF, MOOV, PSSH};
use crate::mp4::pssh::widevine::{hex_ids, parse_key_ids, wv_key_ids};
use crate::mp4::pssh::wrm_header::text_is;
use vstd::prelude::*;

verus! {

/// The DRM system identifier used in a PSSH box.
#[derive(Debug, Clone, PartialEq, Eq)]
pub enum SystemId {
    /// Common `SystemID` (e.g. W3C Common Encryption).
    Common,
    /// Custom or unrecognized system identifier, in hexadecimal.
    Other(String),
    /// Microsoft `PlayReady` `SystemID`.
    PlayReady,
    /// Google Widevine `SystemID`.
    WideVine,
}

/// The content of a system identifier.
pub enum SystemIdView {
    Common,
    Other(Seq<char>),
    PlayReady,
    WideVine,
}

impl SystemId {
    pub open spec fn view_id(&self) -> SystemIdView {
        match self {
            SystemId::Common => SystemIdView::Common,
            SystemId::Other(s) => SystemIdView::Other(s@),
            SystemId::PlayReady => SystemIdView::PlayReady,
            SystemId::WideVine => SystemIdView::WideVine,
        }
    }
}

/// The short name of a system: `cen`, `prd`, `wvd`, or the identifier itself.
pub open spec fn system_name(s: SystemIdView) -> Seq<char> {
    match s {
        SystemIdView::Common => "cen"@,
        SystemIdView::Other(x) => x,
        SystemIdView::PlayReady => "prd"@,
        SystemIdView::WideVine => "wvd"@,
    }
}

impl SystemId {
    /// The short name of the system: `cen`, `prd`, `wvd`, or the identifier itself.
    pub fn to_string(&self) -> (s: String)
        ensures
            s@ == system_name(self.view_id()),
    {
        match self {
            SystemId::Common => "cen".to_owned(),
            SystemId::Other(x) => x.clone(),
            SystemId::PlayReady => "prd".to_owned(),
            SystemId::WideVine => "wvd".to_owned(),
        }
    }
}

/// The PSSH payload parsed from a `pssh` box, containing its binary data and keys.
#[derive(Debug, Clone)]
pub struct PsshData {
    /// The full raw binary data of the parsed PSSH box.
    pub data: Vec<u8>,
    /// The hex-encoded Key IDs extracted from the PSSH box or payload.
    pub key_ids: Vec<String>,
    /// The DRM system associated with this PSSH box.
    pub system_id: SystemId,
}

/// The content of a `PsshData`; `payload` is the system-specific data that the key IDs
/// of an entry come from (empty where it is not known).
pub struct PsshView {
    pub data: Seq<u8>,
    pub key_ids: Seq<Seq<char>>,
    pub system_id: SystemIdView,
    pub payload: Seq<u8>,
}

impl PsshData {
    pub open spec fn view_data(&self) -> PsshView {
        PsshView {
            data: self.data@,
            key_ids: self.key_ids@.map_values(|s: String| s@),
            system_id: self.system_id.view_id(),
            payload: Seq::empty(),
        }
    }

    /// Encodes the binary PSSH box data into a base64 string.
    pub fn as_base64(&self) -> (s: String)
        ensures
            s@ == b64_text(self.data@),
    {
        encode_base64(self.data.as_slice())
    }
}

/// Two PSSH payloads are the same box when their bytes are.
impl PartialEq for PsshData {
    fn eq(&self, other: &Self) -> (r: bool) {
        let n = self.data.len();
        if n != other.data.len() {
            return false;
        }
        let mut i: usize = 0;
        while i < n
            invariant
                n == self.data@.len(),
                n == other.data@.len(),
                i <= n,
                forall|k: int| 0 <= k < i ==> self.data@[k] == other.data@[k],
            decreases n - i,
        {
            if self.data[i] != other.data[i] {
                return false;
            }
            i = i + 1;
        }
        proof {
            assert(self.data@ =~= other.data@);
        }
        true
    }
}

impl vstd::std_specs::cmp::PartialEqSpecImpl for PsshData {
    open spec fn obeys_eq_spec() -> bool {
        true
    }

    open spec fn eq_spec(&self, other: &Self) -> bool {
        self.data@ == other.data@
    }
}

/// Parsed PSSH box content containing PSSH data chunks from an MP4 initialization segment.
#[derive(Debug)]
pub struct PsshBox {
    /// The collection of parsed PSSH data blocks.
    pub boxes: Vec<PsshData>,
}

pub open spec fn common_system_id() -> Seq<char> {
    "1077efecc0b24d02ace33c1e52e2fb4b"@
}

pub open spec fn playready_system_id() -> Seq<char> {
    "9a04f07998404286ab92e65be0885f95"@
}

pub open spec fn widevine_system_id() -> Seq<char> {
    "edef8ba979d64acea3c827dcd51d21ed"@
}

/// The entries that one `pssh` box gives: for a version 1 box first one with the key IDs
/// of the box (system `Common` or the identifier), then for every box one with the key
/// IDs of its payload (Widevine payloads decoded here; PlayReady ones by the caller, so
/// left empty here, with the payload kept for `playready_ids_from`).
pub open spec fn pssh_entries(b: BoxView) -> Result<Seq<PsshView>, Error> {
    match b.version {
        None => Err(Error::MissingVersion),
        Some(v) => if b.flags is None {
            Err(Error::MissingFlags)
        } else if v > 1 {
            Err(Error::UnsupportedPsshVersion)
        } else if b.payload.len() < 16 {
            Err(Error::UnexpectedEof)
        } else {
            let p = b.payload;
            let sid = hex_text(p.subrange(0, 16));
            let n: int = if v == 1 && p.len() >= 20 {
                be_at(p, 16, 4) as int
            } else {
                0
            };
            let pos: int = if v == 1 {
                20 + 16 * n
            } else {
                16
            };
            let first = if v == 1 {
                seq![
                    PsshView {
                        data: b.full,
                        key_ids: Seq::new(
                            n as nat,
                            |i: int| hex_text(p.subrange(20 + 16 * i, 36 + 16 * i)),
                        ),
                        system_id: if sid == common_system_id() {
                            SystemIdView::Common
                        } else {
                            SystemIdView::Other(sid)
                        },
                        payload: Seq::empty(),
                    },
                ]
            } else {
                Seq::empty()
            };
            if v == 1 && p.len() < 20 {
                Err(Error::UnexpectedEof)
            } else if pos + 4 > p.len() {
                Err(Error::UnexpectedEof)
            } else if pos + 4 + be_at(p, pos, 4) > p.len() {
                Err(Error::UnexpectedEof)
            } else {
                let payload = p.subrange(pos + 4, pos + 4 + be_at(p, pos, 4));
                let system = if sid == playready_system_id() {
                    SystemIdView::PlayReady
                } else if sid == widevine_system_id() {
                    SystemIdView::WideVine
                } else {
                    SystemIdView::Other(sid)
                };
                if sid == widevine_system_id() && wv_key_ids(payload, 0) is None {
                    Err(Error::MalformedPsshData)
                } else {
                    let ids = if sid == widevine_system_id() {
                        hex_ids(wv_key_ids(payload, 0)->0)
                    } else {
                        Seq::empty()
                    };
                    Ok(
                        first + seq![
                            PsshView { data: b.full, key_ids: ids, system_id: system, payload },
                        ],
                    )
                }
            }
        },
    }
}

/// The entries `a` are those of `b`, but for the key IDs of PlayReady entries.
pub open spec fn entries_match(a: Seq<PsshView>, b: Seq<PsshView>) -> bool {
    &&& a.len() == b.len()
    &&& forall|i: int|
        0 <= i < a.len() ==> (#[trigger] a[i]).data == b[i].data && a[i].system_id == b[i].system_id
            && (a[i].system_id == SystemIdView::PlayReady || a[i].key_ids == b[i].key_ids)
}

/// Whether an entry list names the PlayReady system.
pub open spec fn has_playready(v: Seq<PsshView>) -> bool {
    exists|i: int| 0 <= i < v.len() && (#[trigger] v[i]).system_id == SystemIdView::PlayReady
}

/// The box types walked to find `pssh` boxes.
pub open spec fn pssh_rules() -> Seq<BoxRule> {
    seq![
        BoxRule { box_type: MOOV, full: false, action: BoxAction::Children },
        BoxRule { box_type: MOOF, full: false, action: BoxAction::Children },
        BoxRule { box_type: PSSH, full: true, action: BoxAction::Emit },
    ]
}

/// The entries of the reported `pssh` boxes `ev[k..]`, in order; the first box that does
/// not parse ends with its error.
pub open spec fn fold_pssh(ev: Seq<BoxView>, k: int) -> Result<Seq<PsshView>, Error>
    decreases ev.len() - k,
{
    if k < 0 || k >= ev.len() {
        Ok(Seq::empty())
    } else {
        match pssh_entries(ev[k]) {
            Err(e) => Err(e),
            Ok(es) => match fold_pssh(ev, k + 1) {
                Err(e) => Err(e),
                Ok(rest) => Ok(es + rest),
            },
        }
    }
}

/// The entries of all `pssh` boxes of `data` (inside `moov` and `moof` boxes too).
pub open spec fn pssh_spec(data: Seq<u8>) -> Result<Seq<PsshView>, Error> {
    let w = walk(pssh_rules(), data, 0, 0, false, false);
    match fold_pssh(w.events, 0) {
        Err(e) => Err(e),
        Ok(v) => match w.err {
            Some(e) => Err(e),
            None => Ok(v),
        },
    }
}

pub open spec fn data_views(v: Seq<PsshData>) -> Seq<PsshView> {
    v.map_values(|d: PsshData| d.view_data())
}

proof fn lemma_match_append(a: Seq<PsshView>, b: Seq<PsshView>, c: Seq<PsshView>, d: Seq<PsshView>)
    requires
        entries_match(a, b),
        entries_match(c, d),
    ensures
        entries_match(a + c, b + d),
{
    assert forall|i: int| 0 <= i < (a + c).len() implies (#[trigger] (a + c)[i]).data == (b
        + d)[i].data && (a + c)[i].system_id == (b + d)[i].system_id && ((a + c)[i].system_id
        == SystemIdView::PlayReady || (a + c)[i].key_ids == (b + d)[i].key_ids) by {
        if i < a.len() {
            assert((a + c)[i] == a[i]);
            assert((b + d)[i] == b[i]);
        } else {
            assert((a + c)[i] == c[i - a.len()]);
            assert((b + d)[i] == d[i - b.len()]);
        }
    }
}

/// The key IDs of the PlayReady entries of `a` are those that `playready` gave for the
/// payloads of the matching entries of `b`.
pub open spec fn playready_ids_from<F: Fn(&[u8]) -> Result<Vec<String>, Error>>(
    a: Seq<PsshView>,
    b: Seq<PsshView>,
    playready: F,
) -> bool {
    forall|i: int|
        #![trigger a[i]]
        0 <= i < a.len() && i < b.len() && b[i].system_id == SystemIdView::PlayReady ==> exists|
            x: &[u8],
            ids: Vec<String>,
        |
            #[trigger] playready.ensures((x,), Ok::<Vec<String>, Error>(ids)) && x@ == b[i].payload
                && ids@.map_values(|s: String| s@) == a[i].key_ids
}

proof fn lemma_playready_append<F: Fn(&[u8]) -> Result<Vec<String>, Error>>(
    a: Seq<PsshView>,
    b: Seq<PsshView>,
    c: Seq<PsshView>,
    d: Seq<PsshView>,
    playready: F,
)
    requires
        a.len() == b.len(),
        c.len() == d.len(),
        playready_ids_from(a, b, playready),
        playready_ids_from(c, d, playready),
    ensures
        playready_ids_from(a + c, b + d, playready),
{
    assert forall|i: int|
        0 <= i < (a + c).len() && i < (b + d).len() && (b + d)[i].system_id
            == SystemIdView::PlayReady implies exists|x: &[u8], ids: Vec<String>|
        #[trigger] playready.ensures((x,), Ok::<Vec<String>, Error>(ids)) && x@ == (b
            + d)[i].payload && ids@.map_values(|s: String| s@) == (a + c)[i].key_ids by {
        if i < a.len() {
            assert((a + c)[i] == a[i]);
            assert((b + d)[i] == b[i]);
        } else {
            assert((a + c)[i] == c[i - a.len()]);
            assert((b + d)[i] == d[i - b.len()]);
        }
    }
}

impl PsshBox {
    /// Parses one `pssh` box and appends its entries.
    fn parse<F: Fn(&[u8]) -> Result<Vec<String>, Error>>(
        box_: &mut ParsedBox,
        boxes: &mut Vec<PsshData>,
        playready: &F,
    ) -> (r: Result<(), Error>)
        requires
            old(box_).fresh(),
            forall|x: &[u8]| #[trigger] playready.requires((x,)),
        ensures
            r is Ok ==> pssh_entries(old(box_).view_box()) is Ok && entries_match(
                data_views(final(boxes)@),
                data_views(old(boxes)@) + pssh_entries(old(box_).view_box())->Ok_0,
            ),
            pssh_entries(old(box_).view_box()) is Err ==> r == Err::<(), Error>(
                pssh_entries(old(box_).view_box())->Err_0,
            ),
            pssh_entries(old(box_).view_box()) is Ok && !has_playready(
                pssh_entries(old(box_).view_box())->Ok_0,
            ) ==> r is Ok,
            r is Ok ==> playready_ids_from(
                data_views(final(boxes)@).skip(old(boxes)@.len() as int),
                pssh_entries(old(box_).view_box())->Ok_0,
                *playready,
            ),
            final(boxes)@.len() >= old(boxes)@.len(),
            data_views(final(boxes)@).take(old(boxes)@.len() as int) == data_views(old(boxes)@),
    {
        proof {
            reveal_strlit("1077efecc0b24d02ace33c1e52e2fb4b");
            reveal_strlit("9a04f07998404286ab92e65be0885f95");
            reveal_strlit("edef8ba979d64acea3c827dcd51d21ed");
        }
        let ghost b = box_.view_box();
        let ghost p = b.payload;
        let version = match box_.version {
            Some(v) => v,
            None => {
                return Err(Error::MissingVersion);
            },
        };
        if box_.flags.is_none() {
            return Err(Error::MissingFlags);
        }
        if version > 1 {
            return Err(Error::UnsupportedPsshVersion);
        }
        let full = box_.full_data();
        let reader = &mut box_.reader;
        let sid = reader.read_bytes_u8(16)?;
        let system_id = encode_hex(sid.as_slice());
        let ghost sidv = hex_text(p.subrange(0, 16));
        proof {
            assert(sid@ =~= p.subrange(0, 16));
        }
        let is_common = text_is(system_id.as_str(), "1077efecc0b24d02ace33c1e52e2fb4b");
        let is_playready = text_is(system_id.as_str(), "9a04f07998404286ab92e65be0885f95");
        let is_widevine = text_is(system_id.as_str(), "edef8ba979d64acea3c827dcd51d21ed");
        let ghost before = data_views(boxes@);
        let ghost entries = pssh_entries(b);
        if version > 0 {
            let n = reader.read_u32()?;
            let mut ids: Vec<String> = Vec::new();
            let mut i: u32 = 0;
            while i < n
                invariant
                    i <= n,
                    b == old(box_).view_box(),
                    p == b.payload,
                    b.version == Some(1u32),
                    b.flags is Some,
                    entries == pssh_entries(b),
                    reader.data() == p,
                    reader.big_endian(),
                    reader.position() == 20 + 16 * i,
                    20 + 16 * i <= p.len(),
                    p.len() >= 20,
                    n == be_at(p, 16, 4),
                    ids@.len() == i,
                    forall|j: int|
                        0 <= j < i ==> (#[trigger] ids@[j])@ == hex_text(
                            p.subrange(20 + 16 * j, 36 + 16 * j),
                        ),
                decreases n - i,
            {
                let k = reader.read_bytes_u8(16)?;
                ids.push(encode_hex(k.as_slice()));
                i = i + 1;
            }
            let first = PsshData {
                data: vstd::slice::slice_to_vec(full.as_slice()),
                key_ids: ids,
                system_id: if is_common {
                    SystemId::Common
                } else {
                    SystemId::Other(system_id.clone())
                },
            };
            boxes.push(first);
        }
        let ghost pos = reader.position() as int;
        proof {
            if version == 1 {
                assert(pos == 20 + 16 * be_at(p, 16, 4));
            } else {
                assert(pos == 16);
            }
        }
        let size = reader.read_u32()?;
        let payload = reader.read_bytes_u8(size as usize)?;
        proof {
            assert(size == be_at(p, pos, 4));
            assert(payload@ == p.subrange(pos + 4, pos + 4 + be_at(p, pos, 4)));
            assert(system_id@ == sidv);
        }
        let key_ids = if is_playready {
            proof {
                let es = entries->Ok_0;
                assert(playready_system_id()[0] != widevine_system_id()[0]);
                assert(entries is Ok);
                assert(es[es.len() - 1].system_id == SystemIdView::PlayReady);
            }
            let arg = payload.as_slice();
            let out = playready(arg);
            match out {
                Ok(v) => {
                    proof {
                        assert(playready.ensures((arg,), Ok::<Vec<String>, Error>(v)));
                        assert(exists|x: &[u8], ids: Vec<String>|
                            #[trigger] playready.ensures((x,), Ok::<Vec<String>, Error>(ids)) && x@
                                == payload@ && ids@.map_values(|s: String| s@) == v@.map_values(
                                |s: String| s@,
                            ));
                    }
                    v
                },
                Err(e) => {
                    return Err(e);
                },
            }
        } else if is_widevine {
            parse_key_ids(payload.as_slice())?
        } else {
            Vec::new()
        };
        let system = if is_playready {
            SystemId::PlayReady
        } else if is_widevine {
            SystemId::WideVine
        } else {
            SystemId::Other(system_id)
        };
        let ghost key_ids_g = key_ids;
        boxes.push(PsshData { data: full, key_ids, system_id: system });
        proof {
            let es = entries->Ok_0;
            let mine = data_views(boxes@).skip(before.len() as int);
            assert(data_views(boxes@) =~= before + mine);
            assert(entries_match(before, before));
            assert(entries_match(mine, es)) by {
                if version == 1 {
                    assert(mine[0].key_ids =~= es[0].key_ids);
                }
                if !is_playready && !is_widevine {
                    assert(mine.last().key_ids =~= es.last().key_ids);
                }
            }
            lemma_match_append(before, before, mine, es);
            assert(data_views(boxes@).take(before.len() as int) =~= before);
            assert forall|i: int|
                0 <= i < mine.len() && i < es.len() && es[i].system_id == SystemIdView::PlayReady
                    implies exists|x: &[u8], ids: Vec<String>|
                #[trigger] playready.ensures((x,), Ok::<Vec<String>, Error>(ids)) && x@
                    == es[i].payload && ids@.map_values(|s: String| s@) == mine[i].key_ids by {
                if version == 1 && i == 0 {
                    assert(es[0].system_id != SystemIdView::PlayReady);
                }
                assert(i == es.len() - 1);
                assert(is_playready);
                assert(payload@ == es[i].payload);
                assert(key_ids_g@.map_values(|s: String| s@) == mine[i].key_ids);
            }
        }
        Ok(())
    }
}

/// `r` with `pre` in front of its entries.
pub open spec fn prepend_entries(pre: Seq<PsshView>, r: Result<Seq<PsshView>, Error>) -> Result<
    Seq<PsshView>,
    Error,
> {
    match r {
        Ok(s) => Ok(pre + s),
        Err(e) => Err(e),
    }
}

proof fn lemma_has_playready_concat(a: Seq<PsshView>, b: Seq<PsshView>)
    ensures
        has_playready(a + b) <==> has_playready(a) || has_playready(b),
{
    if has_playready(a) {
        let i = choose|i: int| 0 <= i < a.len() && (#[trigger] a[i]).system_id == SystemIdView::PlayReady;
        assert((a + b)[i] == a[i]);
    }
    if has_playready(b) {
        let i = choose|i: int| 0 <= i < b.len() && (#[trigger] b[i]).system_id == SystemIdView::PlayReady;
        assert((a + b)[a.len() + i] == b[i]);
    }
    if has_playready(a + b) {
        let i = choose|i: int|
            0 <= i < (a + b).len() && (#[trigger] (a + b)[i]).system_id == SystemIdView::PlayReady;
        if i < a.len() {
            assert((a + b)[i] == a[i]);
        } else {
            assert((a + b)[i] == b[i - a.len()]);
        }
    }
}

impl PsshBox {
    /// Parses the `pssh` boxes of an initialization or media segment (inside `moov` and
    /// `moof` boxes too), in order. The key IDs of a PlayReady entry are those that
    /// `playready`, which reads a PlayReady object, returns for the box's payload.
    ///
    /// Fails where a box does not parse: without version or flags, with a version above
    /// 1, cut short, or with a malformed Widevine payload; or where `playready` fails.
    pub fn from_init<F: Fn(&[u8]) -> Result<Vec<String>, Error>>(data: &[u8], playready: &F) -> (r:
        Result<PsshBox, Error>)
        requires
            forall|x: &[u8]| #[trigger] playready.requires((x,)),
        ensures
            r is Ok ==> pssh_spec(data@) is Ok && entries_match(
                data_views(r->Ok_0.boxes@),
                pssh_spec(data@)->Ok_0,
            ),
            pssh_spec(data@) is Err ==> r is Err,
            pssh_spec(data@) is Ok && !has_playready(pssh_spec(data@)->Ok_0) ==> r is Ok,
            r is Ok ==> playready_ids_from(
                data_views(r->Ok_0.boxes@),
                pssh_spec(data@)->Ok_0,
                *playready,
            ),
    {
        let parser = Mp4Parser::new().base_box(MOOV, BoxAction::Children).base_box(
            MOOF,
            BoxAction::Children,
        ).full_box(PSSH, BoxAction::Emit);
        assert(parser.rules() =~= pssh_rules());
        let (mut events, res) = parser.parse(data, false, false);
        let ghost ev = walk(pssh_rules(), data@, 0, 0, false, false).events;
        let mut boxes: Vec<PsshData> = Vec::new();
        let ghost mut pre: Seq<PsshView> = Seq::empty();
        let mut k: usize = 0;
        proof {
            assert(data_views(boxes@) =~= Seq::<PsshView>::empty());
            assert(prepend_entries(pre, fold_pssh(ev, 0)) == fold_pssh(ev, 0)) by {
                if fold_pssh(ev, 0) is Ok {
                    assert(pre + fold_pssh(ev, 0)->Ok_0 =~= fold_pssh(ev, 0)->Ok_0);
                }
            }
        }
        while k < events.len()
            invariant
                ev == walk(pssh_rules(), data@, 0, 0, false, false).events,
                events@.len() == ev.len(),
                k <= events@.len(),
                forall|j: int| k <= j < events@.len() ==> (#[trigger] events@[j]).fresh(),
                forall|j: int| k <= j < events@.len() ==> (#[trigger] events@[j]).view_box() == ev[j],
                forall|x: &[u8]| #[trigger] playready.requires((x,)),
                fold_pssh(ev, 0) == prepend_entries(pre, fold_pssh(ev, k as int)),
                entries_match(data_views(boxes@), pre),
                fold_pssh(ev, 0) is Ok && has_playready(pre) ==> has_playready(
                    fold_pssh(ev, 0)->Ok_0,
                ),
                playready_ids_from(data_views(boxes@), pre, *playready),
            decreases events.len() - k,
        {
            proof {
                assert(events@[k as int].view_box() == ev[k as int]);
            }
            let ghost es = pssh_entries(ev[k as int]);
            let ghost rest = fold_pssh(ev, k + 1);
            match Self::parse(&mut events[k], &mut boxes, playready) {
                Ok(()) => {},
                Err(e) => {
                    proof {
                        if es is Ok && rest is Ok {
                            lemma_has_playready_concat(es->Ok_0, rest->Ok_0);
                            lemma_has_playready_concat(pre, es->Ok_0 + rest->Ok_0);
                        }
                    }
                    return Err(e);
                },
            }
            proof {
                lemma_match_append(
                    data_views(boxes@).take(pre.len() as int),
                    pre,
                    data_views(boxes@).skip(pre.len() as int),
                    es->Ok_0,
                );
                lemma_playready_append(
                    data_views(boxes@).take(pre.len() as int),
                    pre,
                    data_views(boxes@).skip(pre.len() as int),
                    es->Ok_0,
                    *playready,
                );
                assert(data_views(boxes@).take(pre.len() as int) + data_views(boxes@).skip(
                    pre.len() as int,
                ) =~= data_views(boxes@));
                let new_pre = pre + es->Ok_0;
                if rest is Ok {
                    assert(pre + (es->Ok_0 + rest->Ok_0) =~= new_pre + rest->Ok_0);
                    lemma_has_playready_concat(pre, es->Ok_0);
                    lemma_has_playready_concat(new_pre, rest->Ok_0);
                    lemma_has_playready_concat(es->Ok_0, rest->Ok_0);
                    lemma_has_playready_concat(pre, es->Ok_0 + rest->Ok_0);
                }
                pre = new_pre;
            }
            k = k + 1;
        }
        match res {
            Err(e) => Err(e),
            Ok(()) => {
                proof {
                    assert(pre + Seq::<PsshView>::empty() =~= pre);
                }
                Ok(PsshBox { boxes })
            },
        }
    }
}

} // verus!
