use vsd::downloader::sub::{detect_codec, SubtitleType};

#[test]
fn codecs_name_the_format() {
    assert_eq!(detect_codec(Some("WVTT"), b"", "", false, false), ("vtt", SubtitleType::Mp4Vtt));
    assert_eq!(detect_codec(Some("vtt"), b"1", "srt", false, false), ("vtt", SubtitleType::VttText));
    assert_eq!(
        detect_codec(Some("stpp.TTML.im1t"), b"", "", false, false),
        ("srt", SubtitleType::Mp4Ttml)
    );
}

#[test]
fn data_and_extension_name_the_format() {
    assert_eq!(detect_codec(None, b"WEBVTT\n", "", false, false), ("vtt", SubtitleType::VttText));
    assert_eq!(detect_codec(Some("x"), b"1\n00:00", "", false, false), ("srt", SubtitleType::SrtText));
    assert_eq!(detect_codec(None, b"<tt xml", "", false, false), ("srt", SubtitleType::TtmlText));
    assert_eq!(detect_codec(None, b"<?xml", "", false, false), ("srt", SubtitleType::TtmlText));
    assert_eq!(detect_codec(None, b"", "ttml", false, false), ("srt", SubtitleType::TtmlText));
    assert_eq!(detect_codec(None, b"", "srt", true, false), ("srt", SubtitleType::SrtText));
}

#[test]
fn mp4_payloads_come_last() {
    assert_eq!(detect_codec(None, b"\0\0", "mp4", true, true), ("vtt", SubtitleType::Mp4Vtt));
    assert_eq!(detect_codec(None, b"\0\0", "mp4", false, true), ("srt", SubtitleType::Mp4Ttml));
    assert_eq!(detect_codec(None, b"\0\0", "mp4", false, false), ("txt", SubtitleType::Unknown));
}
