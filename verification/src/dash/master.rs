//! How a DASH representation is classified: its media type and file extension, from its
//! MIME type and codecs.
use crate::downloader::fetch::same_text;
use crate::format::parser::{chars_of, find, find_char};
use crate::playlist::types::MediaType;
use vstd::prelude::*;

verus! {

/// The media type that a MIME type names.
pub open spec fn mime_media_type(m: Seq<char>) -> MediaType {
    if m == "application/ttml+xml"@ || m == "application/x-sami"@ {
        MediaType::Subtitles
    } else if "audio"@.is_prefix_of(m) {
        MediaType::Audio
    } else if "text"@.is_prefix_of(m) {
        MediaType::Subtitles
    } else if "video"@.is_prefix_of(m) {
        MediaType::Video
    } else {
        MediaType::Undefined
    }
}

/// The media type of a representation: by its MIME type, and where that does not tell,
/// subtitles for the `wvtt` and `stpp` codecs.
pub open spec fn media_type_spec(mime: Option<Seq<char>>, codecs: Option<Seq<char>>) -> MediaType {
    let by_mime = match mime {
        Some(m) => mime_media_type(m),
        None => MediaType::Undefined,
    };
    if by_mime == MediaType::Undefined {
        match codecs {
            Some(c) => if c == "wvtt"@ || c == "stpp"@ || "stpp."@.is_prefix_of(c) {
                MediaType::Subtitles
            } else {
                by_mime
            },
            None => by_mime,
        }
    } else {
        by_mime
    }
}

fn has_prefix(s: &str, p: &str) -> (r: bool)
    ensures
        r == p@.is_prefix_of(s@),
{
    let n = p.unicode_len();
    if s.unicode_len() < n {
        return false;
    }
    let head = s.substring_char(0, n);
    let r = same_text(head, p);
    proof {
        if p@.is_prefix_of(s@) {
            assert(head@ =~= p@);
        }
    }
    r
}

/// The media type of a representation, from its MIME type (or content type) and its
/// codecs.
pub fn media_type_of(mime: Option<&str>, codecs: Option<&str>) -> (r: MediaType)
    ensures
        r == media_type_spec(
            match mime {
                Some(m) => Some(m@),
                None => None,
            },
            match codecs {
                Some(c) => Some(c@),
                None => None,
            },
        ),
{
    let by_mime = match mime {
        Some(m) => {
            if same_text(m, "application/ttml+xml") || same_text(m, "application/x-sami") {
                MediaType::Subtitles
            } else if has_prefix(m, "audio") {
                MediaType::Audio
            } else if has_prefix(m, "text") {
                MediaType::Subtitles
            } else if has_prefix(m, "video") {
                MediaType::Video
            } else {
                MediaType::Undefined
            }
        },
        None => MediaType::Undefined,
    };
    if by_mime == MediaType::Undefined {
        match codecs {
            Some(c) => {
                if same_text(c, "wvtt") || same_text(c, "stpp") || has_prefix(c, "stpp.") {
                    MediaType::Subtitles
                } else {
                    by_mime
                }
            },
            None => by_mime,
        }
    } else {
        by_mime
    }
}

/// The file extension a MIME type suggests: what follows its first `/`.
pub open spec fn extension_spec(m: Seq<char>) -> Option<Seq<char>> {
    match find(m, '/') {
        Some(i) => Some(m.skip(i + 1)),
        None => None,
    }
}

/// The file extension a MIME type suggests (`mp4` for `video/mp4`); `None` without `/`.
pub fn extension_of(mime: &str) -> (r: Option<String>)
    ensures
        match (r, extension_spec(mime@)) {
            (Some(a), Some(b)) => a@ == b,
            (None, None) => true,
            _ => false,
        },
{
    let c = chars_of(mime);
    proof {
        assert(c@.subrange(0, c@.len() as int) =~= c@);
    }
    match find_char(&c, 0, c.len(), '/') {
        Some(a) => {
            let ext = mime.substring_char(a + 1, c.len());
            proof {
                assert(ext@ =~= mime@.skip(a + 1));
            }
            Some(ext.to_owned())
        },
        None => None,
    }
}

} // verus!
