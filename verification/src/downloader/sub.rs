//! Telling which subtitle format a stream's first segment is in.
use crate::cli::save::ascii_lower;
use crate::downloader::fetch::same_text;
use vstd::prelude::*;

verus! {

/// The subtitle formats that downloads know.
#[derive(Clone, Copy, Debug, PartialEq, Eq, Structural)]
pub enum SubtitleType {
    /// WebVTT cues in MP4 fragments.
    Mp4Vtt,
    /// TTML documents in MP4 fragments.
    Mp4Ttml,
    /// SubRip text.
    SrtText,
    /// A TTML document.
    TtmlText,
    /// Anything else.
    Unknown,
    /// A WebVTT document.
    VttText,
}

/// `t` with ASCII capitals lowered.
pub open spec fn lower_ascii_text(t: Seq<char>) -> Seq<char> {
    t.map_values(|c: char| ascii_lower(c))
}

/// The format a codecs string names, compared without regard to case.
pub open spec fn codec_format(c: Seq<char>) -> Option<(Seq<char>, SubtitleType)> {
    let l = lower_ascii_text(c);
    if l == "vtt"@ {
        Some(("vtt"@, SubtitleType::VttText))
    } else if l == "wvtt"@ {
        Some(("vtt"@, SubtitleType::Mp4Vtt))
    } else if l == "stpp"@ || l == "stpp.ttml"@ || l == "stpp.ttml.im1t"@ {
        Some(("srt"@, SubtitleType::Mp4Ttml))
    } else {
        None
    }
}

/// The bytes of `WEBVTT`, `1`, `<?xml` and `<tt`.
pub open spec fn webvtt_magic() -> Seq<u8> {
    seq![0x57u8, 0x45u8, 0x42u8, 0x56u8, 0x54u8, 0x54u8]
}

pub open spec fn xml_magic() -> Seq<u8> {
    seq![0x3cu8, 0x3fu8, 0x78u8, 0x6du8, 0x6cu8]
}

pub open spec fn tt_magic() -> Seq<u8> {
    seq![0x3cu8, 0x74u8, 0x74u8]
}

/// The extension a subtitle stream is saved with and its format: by its codecs where
/// they name one, else by the first bytes of its data or its file extension, else by
/// whether its data reads as WebVTT or TTML in MP4 (`is_wvtt`, `is_stpp`).
pub open spec fn detect_codec_spec(
    codecs: Option<Seq<char>>,
    data: Seq<u8>,
    ext: Seq<char>,
    is_wvtt: bool,
    is_stpp: bool,
) -> (Seq<char>, SubtitleType) {
    let by_codecs = match codecs {
        Some(c) => codec_format(c),
        None => None,
    };
    match by_codecs {
        Some(r) => r,
        None => if webvtt_magic().is_prefix_of(data) || ext == "vtt"@ {
            ("vtt"@, SubtitleType::VttText)
        } else if seq![0x31u8].is_prefix_of(data) || ext == "srt"@ {
            ("srt"@, SubtitleType::SrtText)
        } else if xml_magic().is_prefix_of(data) || tt_magic().is_prefix_of(data) || ext
            == "ttml"@ {
            ("srt"@, SubtitleType::TtmlText)
        } else if is_wvtt {
            ("vtt"@, SubtitleType::Mp4Vtt)
        } else if is_stpp {
            ("srt"@, SubtitleType::Mp4Ttml)
        } else {
            ("txt"@, SubtitleType::Unknown)
        },
    }
}

/// Whether `c`, with ASCII capitals lowered, is `w`.
fn same_text_lowered(c: &str, w: &str) -> (r: bool)
    ensures
        r == (lower_ascii_text(c@) == w@),
{
    let n = c.unicode_len();
    if n != w.unicode_len() {
        proof {
            assert(lower_ascii_text(c@).len() != w@.len());
        }
        return false;
    }
    let mut i: usize = 0;
    while i < n
        invariant
            n == c@.len(),
            n == w@.len(),
            i <= n,
            forall|k: int| 0 <= k < i ==> ascii_lower(c@[k]) == w@[k],
        decreases n - i,
    {
        let x = c.get_char(i);
        let l = if 'A' <= x && x <= 'Z' {
            None
        } else {
            Some(x)
        };
        let y = w.get_char(i);
        let same = match l {
            Some(x) => x == y,
            None => (y as u32) == (x as u32) + 32,
        };
        if !same {
            proof {
                assert(lower_ascii_text(c@)[i as int] == ascii_lower(x));
                if 'A' <= x <= 'Z' {
                    assert(ascii_lower(x) as u32 == x as u32 + 32);
                }
            }
            return false;
        }
        proof {
            if 'A' <= x <= 'Z' {
                assert(ascii_lower(x) as u32 == x as u32 + 32);
                assert(ascii_lower(x) == y);
            }
        }
        i = i + 1;
    }
    proof {
        assert(lower_ascii_text(c@) =~= w@);
    }
    true
}

fn starts_with(data: &[u8], magic: &[u8]) -> (r: bool)
    ensures
        r == magic@.is_prefix_of(data@),
{
    if data.len() < magic.len() {
        return false;
    }
    let mut i: usize = 0;
    while i < magic.len()
        invariant
            magic@.len() <= data@.len(),
            i <= magic@.len(),
            forall|k: int| 0 <= k < i ==> data@[k] == magic@[k],
        decreases magic.len() - i,
    {
        if data[i] != magic[i] {
            return false;
        }
        i = i + 1;
    }
    proof {
        assert(data@.take(magic@.len() as int) =~= magic@);
    }
    true
}

/// The extension a subtitle stream is saved with, and its format: by its codecs where
/// they name one (`vtt`, `wvtt`, `stpp`, `stpp.ttml`, `stpp.ttml.im1t`, in any case:
/// only ASCII capitals are lowered, as no other character lowers onto these names),
/// else by the first bytes of its data (`WEBVTT`, `1`, `<?xml`, `<tt`) or its file
/// extension, else by whether its data reads as WebVTT (`is_wvtt`) or TTML (`is_stpp`)
/// in MP4; `txt` and `Unknown` where nothing tells.
pub fn detect_codec(
    codecs: Option<&str>,
    data: &[u8],
    ext: &str,
    is_wvtt: bool,
    is_stpp: bool,
) -> (r: (&'static str, SubtitleType))
    ensures
        (r.0@, r.1) == detect_codec_spec(
            match codecs {
                Some(c) => Some(c@),
                None => None,
            },
            data@,
            ext@,
            is_wvtt,
            is_stpp,
        ),
{
    proof {
        reveal_strlit("vtt");
        reveal_strlit("srt");
        reveal_strlit("txt");
    }
    match codecs {
        Some(c) => {
            if same_text_lowered(c, "vtt") {
                return ("vtt", SubtitleType::VttText);
            } else if same_text_lowered(c, "wvtt") {
                return ("vtt", SubtitleType::Mp4Vtt);
            } else if same_text_lowered(c, "stpp") || same_text_lowered(c, "stpp.ttml")
                || same_text_lowered(c, "stpp.ttml.im1t") {
                return ("srt", SubtitleType::Mp4Ttml);
            }
        },
        None => {},
    }
    let webvtt: [u8; 6] = [0x57, 0x45, 0x42, 0x56, 0x54, 0x54];
    let one: [u8; 1] = [0x31];
    let xml: [u8; 5] = [0x3c, 0x3f, 0x78, 0x6d, 0x6c];
    let tt: [u8; 3] = [0x3c, 0x74, 0x74];
    proof {
        assert(webvtt@ =~= webvtt_magic());
        assert(one@ =~= seq![0x31u8]);
        assert(xml@ =~= xml_magic());
        assert(tt@ =~= tt_magic());
    }
    if starts_with(data, &webvtt) || same_text(ext, "vtt") {
        ("vtt", SubtitleType::VttText)
    } else if starts_with(data, &one) || same_text(ext, "srt") {
        ("srt", SubtitleType::SrtText)
    } else if starts_with(data, &xml) || starts_with(data, &tt) || same_text(ext, "ttml") {
        ("srt", SubtitleType::TtmlText)
    } else if is_wvtt {
        ("vtt", SubtitleType::Mp4Vtt)
    } else if is_stpp {
        ("srt", SubtitleType::Mp4Ttml)
    } else {
        ("txt", SubtitleType::Unknown)
    }
}

/// A stream whose codecs are `stpp`, `stpp.ttml` or `stpp.ttml.im1t` (in any ASCII
/// case) holds TTML in MP4 and is saved as `srt`, one whose codecs are `wvtt` holds
/// WebVTT in MP4 and one whose codecs are `vtt` is WebVTT text, both saved as `vtt`:
/// whatever its data, extension and MP4 contents.
pub proof fn codecs_decide_the_subtitle_format(
    c: Seq<char>,
    data: Seq<u8>,
    ext: Seq<char>,
    is_wvtt: bool,
    is_stpp: bool,
)
    ensures
        lower_ascii_text(c) == "stpp"@ || lower_ascii_text(c) == "stpp.ttml"@ || lower_ascii_text(
            c,
        ) == "stpp.ttml.im1t"@ ==> detect_codec_spec(Some(c), data, ext, is_wvtt, is_stpp) == (
            "srt"@,
            SubtitleType::Mp4Ttml,
        ),
        lower_ascii_text(c) == "wvtt"@ ==> detect_codec_spec(Some(c), data, ext, is_wvtt, is_stpp)
            == ("vtt"@, SubtitleType::Mp4Vtt),
        lower_ascii_text(c) == "vtt"@ ==> detect_codec_spec(Some(c), data, ext, is_wvtt, is_stpp)
            == ("vtt"@, SubtitleType::VttText),
{
    reveal_strlit("vtt");
    reveal_strlit("wvtt");
    reveal_strlit("stpp");
    reveal_strlit("stpp.ttml");
    reveal_strlit("stpp.ttml.im1t");
    let l = lower_ascii_text(c);
    if l == "stpp"@ || l == "stpp.ttml"@ || l == "stpp.ttml.im1t"@ {
        assert(l[0] == 's');
        assert(l != "vtt"@ && l != "wvtt"@) by {
            assert("vtt"@[0] != 's');
            assert("wvtt"@[0] != 's');
        }
    }
    if l == "wvtt"@ {
        assert(l.len() == 4);
        assert("vtt"@.len() == 3);
    }
}

} // verus!
