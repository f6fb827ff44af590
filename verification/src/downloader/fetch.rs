//! Telling HLS from DASH playlists, and reading playlists inlined in `data:` URIs.
use crate::error::Error;
use crate::mp4::b64::{base64_decoded, decode_base64};
use crate::playlist::types::PlaylistType;
use vstd::prelude::*;

verus! {

/// Whether `p` occurs somewhere in `d`.
pub open spec fn contains_bytes(d: Seq<u8>, p: Seq<u8>) -> bool {
    exists|i: int| 0 <= i && i + p.len() <= d.len() && #[trigger] d.subrange(i, i + p.len()) == p
}

/// The bytes of `#EXTM3U`, which begins every HLS playlist.
pub open spec fn hls_tag() -> Seq<u8> {
    seq![0x23u8, 0x45u8, 0x58u8, 0x54u8, 0x4du8, 0x33u8, 0x55u8]
}

/// The bytes of `<MPD`, which opens the root element of a DASH manifest.
pub open spec fn dash_tag() -> Seq<u8> {
    seq![0x3cu8, 0x4du8, 0x50u8, 0x44u8]
}

fn contains_bytes_exec(d: &[u8], p: &[u8]) -> (b: bool)
    requires
        p@.len() >= 1,
    ensures
        b == contains_bytes(d@, p@),
{
    if d.len() < p.len() {
        return false;
    }
    let last = d.len() - p.len();
    assert(d@.len() == d.len());
    let mut i: usize = 0;
    while i <= last
        invariant
            p@.len() >= 1,
            p@.len() <= d@.len(),
            last == d@.len() - p@.len(),
            d@.len() <= usize::MAX,
            i <= last + 1,
            forall|k: int| 0 <= k < i ==> #[trigger] d@.subrange(k, k + p@.len()) != p@,
        decreases last + 1 - i,
    {
        let mut j: usize = 0;
        let mut same = true;
        while j < p.len()
            invariant
                i + p@.len() <= d@.len(),
                d@.len() <= usize::MAX,
                j <= p@.len(),
                same == (forall|m: int| 0 <= m < j ==> d@[i + m] == p@[m]),
            decreases p.len() - j,
        {
            if d[i + j] != p[j] {
                same = false;
            }
            j = j + 1;
        }
        if same {
            proof {
                assert(d@.subrange(i as int, i + p@.len()) =~= p@);
            }
            return true;
        }
        proof {
            let w = d@.subrange(i as int, i + p@.len());
            let m = choose|m: int| 0 <= m < p@.len() && d@[i + m] != p@[m];
            assert(w[m] != p@[m]);
        }
        i = i + 1;
    }
    proof {
        assert forall|k: int|
            0 <= k && k + p@.len() <= d@.len() implies #[trigger] d@.subrange(k, k + p@.len())
            != p@ by {
            assert(k < i);
        }
    }
    false
}

/// The playlist type that the file extension of a local playlist names.
pub open spec fn type_from_extension_spec(ext: Seq<char>) -> Option<PlaylistType> {
    if ext == "mpd"@ {
        Some(PlaylistType::Dash)
    } else if ext == "m3u"@ || ext == "m3u8"@ {
        Some(PlaylistType::Hls)
    } else {
        None
    }
}

/// The playlist type that an HTTP `Content-Type` names.
pub open spec fn type_from_content_type_spec(ct: Seq<char>) -> Option<PlaylistType> {
    if ct == "application/dash+xml"@ || ct == "video/vnd.mpeg.dash.mpd"@ {
        Some(PlaylistType::Dash)
    } else if ct == "application/x-mpegurl"@ || ct == "application/vnd.apple.mpegurl"@ {
        Some(PlaylistType::Hls)
    } else {
        None
    }
}

pub(crate) fn same_text(a: &str, b: &str) -> (r: bool)
    ensures
        r == (a@ == b@),
{
    let n = a.unicode_len();
    if n != b.unicode_len() {
        return false;
    }
    let mut i: usize = 0;
    while i < n
        invariant
            n == a@.len(),
            n == b@.len(),
            i <= n,
            forall|k: int| 0 <= k < i ==> a@[k] == b@[k],
        decreases n - i,
    {
        if a.get_char(i) != b.get_char(i) {
            return false;
        }
        i = i + 1;
    }
    proof {
        assert(a@ =~= b@);
    }
    true
}

/// The playlist type that the extension of a local playlist file names: `mpd` for DASH,
/// `m3u` or `m3u8` for HLS.
pub fn type_from_extension(ext: &str) -> (r: Option<PlaylistType>)
    ensures
        r == type_from_extension_spec(ext@),
{
    if same_text(ext, "mpd") {
        Some(PlaylistType::Dash)
    } else if same_text(ext, "m3u") || same_text(ext, "m3u8") {
        Some(PlaylistType::Hls)
    } else {
        None
    }
}

/// The playlist type that an HTTP response's `Content-Type` names.
pub fn type_from_content_type(ct: &str) -> (r: Option<PlaylistType>)
    ensures
        r == type_from_content_type_spec(ct@),
{
    if same_text(ct, "application/dash+xml") || same_text(ct, "video/vnd.mpeg.dash.mpd") {
        Some(PlaylistType::Dash)
    } else if same_text(ct, "application/x-mpegurl") || same_text(
        ct,
        "application/vnd.apple.mpegurl",
    ) {
        Some(PlaylistType::Hls)
    } else {
        None
    }
}

/// A playlist as it was read: where it came from, its bytes, and its type where the
/// file extension or the response's content type told it.
pub struct FetchedPlaylist {
    /// The URL that relative URIs in the playlist resolve against.
    pub url: String,
    /// The playlist's bytes.
    pub data: Vec<u8>,
    /// The type known before looking at the bytes.
    pub typ: Option<PlaylistType>,
}

/// The type of a fetched playlist: the known one, else HLS where `#EXTM3U` occurs in the
/// bytes, else DASH where `<MPD` does.
pub open spec fn playlist_type_spec(typ: Option<PlaylistType>, data: Seq<u8>) -> Option<
    PlaylistType,
> {
    match typ {
        Some(t) => Some(t),
        None => if contains_bytes(data, hls_tag()) {
            Some(PlaylistType::Hls)
        } else if contains_bytes(data, dash_tag()) {
            Some(PlaylistType::Dash)
        } else {
            None
        },
    }
}

impl FetchedPlaylist {
    /// The playlist's type; fails where neither the source nor the bytes tell it.
    pub fn playlist_type(&self) -> (r: Result<PlaylistType, Error>)
        ensures
            match playlist_type_spec(self.typ, self.data@) {
                Some(t) => r == Ok::<PlaylistType, Error>(t),
                None => r matches Err(Error::Other(m)) && m@
                    == "Unable to determine playlist type."@,
            },
    {
        if let Some(t) = self.typ {
            return Ok(t);
        }
        let hls: [u8; 7] = [0x23, 0x45, 0x58, 0x54, 0x4d, 0x33, 0x55];
        let dash: [u8; 4] = [0x3c, 0x4d, 0x50, 0x44];
        proof {
            assert(hls@ =~= hls_tag());
            assert(dash@ =~= dash_tag());
        }
        if contains_bytes_exec(self.data.as_slice(), &hls) {
            Ok(PlaylistType::Hls)
        } else if contains_bytes_exec(self.data.as_slice(), &dash) {
            Ok(PlaylistType::Dash)
        } else {
            Err(Error::Other("Unable to determine playlist type.".to_owned()))
        }
    }
}

/// The prefix of a URI that carries a base64-encoded HLS playlist inline.
pub open spec fn inline_prefix() -> Seq<char> {
    "data:application/x-mpegurl;base64,"@
}

/// The playlist carried inline by a `data:` URI: `None` where `uri` does not start with
/// the inline prefix; otherwise the base64 text after it decoded, or, where it is not
/// base64, `Other` with the decoder's message.
pub fn inline_playlist(uri: &str) -> (r: Option<Result<Vec<u8>, Error>>)
    ensures
        match r {
            None => !inline_prefix().is_prefix_of(uri@),
            Some(res) => inline_prefix().is_prefix_of(uri@) && {
                let text = vstd::utf8::encode_utf8(uri@.skip(inline_prefix().len() as int));
                match (res, base64_decoded(text)) {
                    (Ok(v), Some(w)) => v@ == w,
                    (Err(e), None) => e is Other,
                    _ => false,
                }
            },
        },
{
    let prefix = "data:application/x-mpegurl;base64,";
    let n = prefix.unicode_len();
    if uri.unicode_len() < n {
        return None;
    }
    let head = uri.substring_char(0, n);
    if !same_text(head, prefix) {
        proof {
            assert(!(uri@.subrange(0, n as int) =~= prefix@));
        }
        return None;
    }
    let rest = uri.substring_char(n, uri.unicode_len());
    proof {
        assert(prefix@.is_prefix_of(uri@));
        assert(rest@ =~= uri@.skip(n as int));
    }
    match decode_base64(rest.as_bytes()) {
        Ok(v) => Some(Ok(v)),
        Err(m) => Some(Err(Error::Other(m))),
    }
}

} // verus!
