//! The PlayReady header (`WRMHEADER`) and the key IDs it names.
use crate::mp4::b64::{base64_decoded, decode_base64};
use crate::mp4::error::Error;
use crate::mp4::hex::{encode_hex, hex_text};
use vstd::prelude::*;
use vstd::utf8::encode_utf8;

verus! {

/// A PlayReady header, as read from its XML.
pub struct WrmHeader {
    /// The `version` attribute.
    pub version: String,
    /// The `DATA` element.
    pub data: Option<Data>,
}

/// The `DATA` element of a PlayReady header.
pub struct Data {
    /// The `KID` element (version 4.0.0.0), a key ID in base64.
    pub kid: Option<String>,
    /// The `PROTECTINFO` element (versions 4.1.0.0 and later).
    pub protect_info: Option<ProtectInfo>,
}

/// The `PROTECTINFO` element of a PlayReady header.
pub struct ProtectInfo {
    /// The `KID` element (version 4.1.0.0 and later).
    pub kid: Option<KeyID>,
    /// The `KIDS` element (versions 4.2.0.0 and 4.3.0.0).
    pub kids: Option<KeyIDs>,
}

/// A `KID` element whose `VALUE` attribute is a key ID in base64.
pub struct KeyID {
    pub value: String,
}

/// A `KIDS` element.
pub struct KeyIDs {
    pub kids: Vec<KeyID>,
}

/// The key IDs of the protection information's `KID` element.
pub open spec fn protect_kid(d: Option<Data>) -> Seq<Seq<char>> {
    match d {
        Some(Data { protect_info: Some(ProtectInfo { kid: Some(k), .. }), .. }) => seq![k.value@],
        _ => Seq::empty(),
    }
}

/// The key IDs of the protection information's `KIDS` element.
pub open spec fn protect_kids(d: Option<Data>) -> Seq<Seq<char>> {
    match d {
        Some(Data { protect_info: Some(ProtectInfo { kids: Some(k), .. }), .. }) => k.kids@.map_values(
            |x: KeyID| x.value@,
        ),
        _ => Seq::empty(),
    }
}

/// The key IDs, in base64, that a header names for its version, or `None` for a version
/// it does not support.
pub open spec fn raw_key_ids(h: WrmHeader) -> Option<Seq<Seq<char>>> {
    if h.version@ == "4.0.0.0"@ {
        Some(
            match h.data {
                Some(Data { kid: Some(k), .. }) => seq![k@],
                _ => Seq::empty(),
            },
        )
    } else if h.version@ == "4.1.0.0"@ {
        Some(protect_kid(h.data))
    } else if h.version@ == "4.2.0.0"@ || h.version@ == "4.3.0.0"@ {
        Some(protect_kid(h.data) + protect_kids(h.data))
    } else {
        None
    }
}

/// Headers of versions 4.2.0.0 and 4.3.0.0 name the same key IDs for the same data: the
/// `PROTECTINFO` `KID`, where there is one, followed by every `KIDS` entry in order.
pub proof fn newer_headers_name_kid_then_kids(h1: WrmHeader, h2: WrmHeader)
    requires
        h1.version@ == "4.2.0.0"@,
        h2.version@ == "4.3.0.0"@,
        h1.data == h2.data,
    ensures
        raw_key_ids(h1) == raw_key_ids(h2),
        raw_key_ids(h1) == Some(protect_kid(h1.data) + protect_kids(h1.data)),
        match h1.data {
            Some(Data { protect_info: Some(ProtectInfo { kid, kids: Some(ks) }), .. }) => {
                let ids = raw_key_ids(h1)->0;
                let off: int = if kid is Some { 1 } else { 0 };
                &&& ids.len() == off + ks.kids@.len()
                &&& (kid matches Some(k) ==> ids[0] == k.value@)
                &&& forall|i: int| 0 <= i < ks.kids@.len() ==> ids[off + i] == (#[trigger] ks.kids@[i]).value@
            },
            _ => true,
        },
{
    reveal_strlit("4.0.0.0");
    reveal_strlit("4.1.0.0");
    reveal_strlit("4.2.0.0");
    reveal_strlit("4.3.0.0");
    assert(h1.version@[2] != "4.0.0.0"@[2]);
    assert(h1.version@[2] != "4.1.0.0"@[2]);
    assert(h2.version@[2] != "4.0.0.0"@[2]);
    assert(h2.version@[2] != "4.1.0.0"@[2]);
    assert(h2.version@[2] != "4.2.0.0"@[2]);
}

/// Every key ID decodes from base64.
pub open spec fn all_decode(ids: Seq<Seq<char>>) -> bool {
    forall|i: int| 0 <= i < ids.len() ==> (#[trigger] base64_decoded(encode_utf8(ids[i]))) is Some
}

/// The key IDs decoded from base64 and written as lower-case hexadecimal text.
pub open spec fn decoded_hex(ids: Seq<Seq<char>>) -> Seq<Seq<char>> {
    ids.map_values(|x: Seq<char>| hex_text(base64_decoded(encode_utf8(x))->0))
}

/// Appends a key ID, in base64, to a list.
fn push_text(out: &mut Vec<String>, s: &String)
    ensures
        final(out)@.map_values(|x: String| x@) == old(out)@.map_values(|x: String| x@).push(s@),
{
    out.push(s.clone());
    proof {
        assert(out@.map_values(|x: String| x@) =~= old(out)@.map_values(|x: String| x@).push(s@));
    }
}

impl WrmHeader {
    /// The key IDs in base64 that the header names for its version.
    fn raw_ids(&self) -> (r: Result<Vec<String>, Error>)
        ensures
            match raw_key_ids(*self) {
                Some(ids) => r matches Ok(v) && v@.map_values(|x: String| x@) == ids,
                None => r == Err::<Vec<String>, Error>(Error::UnsupportedWrmHeaderVersion),
            },
    {
        proof {
            reveal_strlit("4.0.0.0");
            reveal_strlit("4.1.0.0");
            reveal_strlit("4.2.0.0");
            reveal_strlit("4.3.0.0");
        }
        let mut ids: Vec<String> = Vec::new();
        let v = self.version.as_str();
        let v0 = text_is(v, "4.0.0.0");
        let v1 = !v0 && text_is(v, "4.1.0.0");
        let v2 = !v0 && !v1 && (text_is(v, "4.2.0.0") || text_is(v, "4.3.0.0"));
        proof {
            assert(ids@.map_values(|x: String| x@) =~= Seq::<Seq<char>>::empty());
        }
        if v0 {
            if let Some(Data { kid: Some(k), .. }) = &self.data {
                push_text(&mut ids, k);
                proof {
                    assert(ids@.map_values(|x: String| x@) =~= seq![k@]);
                }
            }
            proof {
                assert(raw_key_ids(*self) == Some(ids@.map_values(|x: String| x@)));
            }
            Ok(ids)
        } else if v1 || v2 {
            if let Some(Data { protect_info: Some(ProtectInfo { kid: Some(k), .. }), .. }) = &self.data {
                push_text(&mut ids, &k.value);
                proof {
                    assert(ids@.map_values(|x: String| x@) =~= seq![k.value@]);
                }
            } else {
                proof {
                    assert(protect_kid(self.data) =~= Seq::<Seq<char>>::empty());
                }
            }
            if v2 {
                if let Some(Data { protect_info: Some(ProtectInfo { kids: Some(ks), .. }), .. }) =
                    &self.data {
                    let ghost first = ids@.map_values(|x: String| x@);
                    let mut i: usize = 0;
                    while i < ks.kids.len()
                        invariant
                            i <= ks.kids@.len(),
                            ids@.map_values(|x: String| x@) == first + ks.kids@.take(
                                i as int,
                            ).map_values(|x: KeyID| x.value@),
                        decreases ks.kids.len() - i,
                    {
                        push_text(&mut ids, &ks.kids[i].value);
                        i = i + 1;
                        proof {
                            assert(ks.kids@.take(i as int).map_values(|x: KeyID| x.value@)
                                =~= ks.kids@.take(i - 1).map_values(|x: KeyID| x.value@).push(
                                ks.kids@[i - 1].value@,
                            ));
                        }
                    }
                    proof {
                        assert(ks.kids@.take(ks.kids@.len() as int) =~= ks.kids@);
                    }
                } else {
                    proof {
                        assert(ids@.map_values(|x: String| x@) =~= ids@.map_values(|x: String| x@)
                            + Seq::<Seq<char>>::empty());
                    }
                }
            }
            Ok(ids)
        } else {
            Err(Error::UnsupportedWrmHeaderVersion)
        }
    }
}

/// Whether `v` is the text `w`.
pub(crate) fn text_is(v: &str, w: &str) -> (b: bool)
    ensures
        b == (v@ == w@),
{
    let n = v.unicode_len();
    if n != w.unicode_len() {
        return false;
    }
    let mut i: usize = 0;
    while i < n
        invariant
            n == v@.len(),
            n == w@.len(),
            i <= n,
            forall|j: int| 0 <= j < i ==> v@[j] == w@[j],
        decreases n - i,
    {
        if v.get_char(i) != w.get_char(i) {
            return false;
        }
        i = i + 1;
    }
    proof {
        assert(v@ =~= w@);
    }
    true
}

/// The key IDs decoded from base64, as hexadecimal text, or `None` at the first that
/// does not decode.
fn decode_ids(raw: &Vec<String>) -> (r: Option<Vec<String>>)
    ensures
        match r {
            Some(v) => all_decode(raw@.map_values(|x: String| x@)) && v@.map_values(|x: String| x@)
                == decoded_hex(raw@.map_values(|x: String| x@)),
            None => !all_decode(raw@.map_values(|x: String| x@)),
        },
{
    let ghost ids = raw@.map_values(|x: String| x@);
    let mut out: Vec<String> = Vec::new();
    let mut i: usize = 0;
    while i < raw.len()
        invariant
            ids == raw@.map_values(|x: String| x@),
            i <= raw@.len(),
            out@.len() == i,
            forall|j: int| 0 <= j < i ==> (#[trigger] base64_decoded(encode_utf8(ids[j]))) is Some,
            forall|j: int|
                0 <= j < i ==> (#[trigger] out@[j])@ == hex_text(
                    base64_decoded(encode_utf8(ids[j]))->0,
                ),
        decreases raw.len() - i,
    {
        let text = raw[i].as_str();
        match decode_base64(text.as_bytes()) {
            Ok(bytes) => {
                out.push(encode_hex(bytes.as_slice()));
            },
            Err(_) => {
                proof {
                    assert(base64_decoded(encode_utf8(ids[i as int])) is None);
                }
                return None;
            },
        }
        i = i + 1;
    }
    proof {
        assert(out@.map_values(|x: String| x@) =~= decoded_hex(ids));
    }
    Some(out)
}

impl WrmHeader {
    /// The key IDs that the header names for its version, as lower-case hexadecimal text.
    ///
    /// Fails with `UnsupportedWrmHeaderVersion` for a version other than 4.0.0.0 to
    /// 4.3.0.0.
    pub fn key_ids(&self) -> (r: Result<Vec<String>, Error>)
        requires
            raw_key_ids(*self) matches Some(ids) ==> all_decode(ids),
        ensures
            match raw_key_ids(*self) {
                Some(ids) => r matches Ok(v) && v@.map_values(|x: String| x@) == decoded_hex(ids),
                None => r == Err::<Vec<String>, Error>(Error::UnsupportedWrmHeaderVersion),
            },
    {
        let raw = self.raw_ids()?;
        match decode_ids(&raw) {
            Some(v) => Ok(v),
            None => vstd::pervasive::unreached(),
        }
    }

    /// The key IDs, or `None` where one of them is not base64 (where `key_ids` would
    /// panic).
    pub fn try_key_ids(&self) -> (r: Option<Result<Vec<String>, Error>>)
        ensures
            match raw_key_ids(*self) {
                Some(ids) => if all_decode(ids) {
                    r matches Some(Ok(v)) && v@.map_values(|x: String| x@) == decoded_hex(ids)
                } else {
                    r is None
                },
                None => r == Some(Err::<Vec<String>, Error>(Error::UnsupportedWrmHeaderVersion)),
            },
    {
        let raw = match self.raw_ids() {
            Ok(raw) => raw,
            Err(e) => {
                return Some(Err(e));
            },
        };
        match decode_ids(&raw) {
            Some(_) => Some(self.key_ids()),
            None => None,
        }
    }
}

} // verus!
