use vsd::dash::master::{extension_of, media_type_of};
use vsd::playlist::types::MediaType;

#[test]
fn media_type_from_mime() {
    assert_eq!(media_type_of(Some("video/mp4"), None), MediaType::Video);
    assert_eq!(media_type_of(Some("audio/mp4"), Some("mp4a.40.2")), MediaType::Audio);
    assert_eq!(media_type_of(Some("text/vtt"), None), MediaType::Subtitles);
    assert_eq!(media_type_of(Some("application/ttml+xml"), None), MediaType::Subtitles);
    assert_eq!(media_type_of(Some("application/x-sami"), None), MediaType::Subtitles);
    assert_eq!(media_type_of(None, None), MediaType::Undefined);
}

#[test]
fn media_type_from_codecs_when_mime_does_not_tell() {
    assert_eq!(media_type_of(Some("application/mp4"), Some("wvtt")), MediaType::Subtitles);
    assert_eq!(media_type_of(None, Some("stpp.ttml.im1t")), MediaType::Subtitles);
    assert_eq!(media_type_of(None, Some("stpp")), MediaType::Subtitles);
    assert_eq!(media_type_of(None, Some("avc1")), MediaType::Undefined);
    // The MIME type wins where it tells.
    assert_eq!(media_type_of(Some("video/mp4"), Some("wvtt")), MediaType::Video);
}

#[test]
fn extension_follows_the_slash() {
    assert_eq!(extension_of("video/mp4").as_deref(), Some("mp4"));
    assert_eq!(extension_of("application/ttml+xml").as_deref(), Some("ttml+xml"));
    assert_eq!(extension_of("a/b/c").as_deref(), Some("b/c"));
    assert_eq!(extension_of("mp4"), None);
}
