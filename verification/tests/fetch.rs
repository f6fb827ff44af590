use vsd::downloader::fetch::{
    inline_playlist, type_from_content_type, type_from_extension, FetchedPlaylist,
};
use vsd::error::Error;
use vsd::playlist::types::PlaylistType;

fn fetched(data: &[u8], typ: Option<PlaylistType>) -> FetchedPlaylist {
    FetchedPlaylist { url: "https://a.example/p".to_owned(), data: data.to_vec(), typ }
}

#[test]
fn playlist_type_from_bytes() {
    assert_eq!(fetched(b"\xef\xbb\xbf#EXTM3U\n", None).playlist_type().unwrap(), PlaylistType::Hls);
    assert_eq!(fetched(b"<?xml?><MPD>", None).playlist_type().unwrap(), PlaylistType::Dash);
    assert_eq!(
        fetched(b"<MPD> #EXTM3U", None).playlist_type().unwrap(),
        PlaylistType::Hls
    );
}

#[test]
fn known_playlist_type_wins() {
    assert_eq!(
        fetched(b"#EXTM3U", Some(PlaylistType::Dash)).playlist_type().unwrap(),
        PlaylistType::Dash
    );
}

#[test]
fn unknown_playlist_type_fails() {
    match fetched(b"#EXTM3", None).playlist_type() {
        Err(Error::Other(m)) => assert_eq!(m, "Unable to determine playlist type."),
        r => panic!("unexpected {r:?}"),
    }
}

#[test]
fn types_from_extension_and_content_type() {
    assert_eq!(type_from_extension("mpd"), Some(PlaylistType::Dash));
    assert_eq!(type_from_extension("m3u8"), Some(PlaylistType::Hls));
    assert_eq!(type_from_extension("m3u"), Some(PlaylistType::Hls));
    assert_eq!(type_from_extension("MPD"), None);
    assert_eq!(type_from_content_type("application/dash+xml"), Some(PlaylistType::Dash));
    assert_eq!(type_from_content_type("video/vnd.mpeg.dash.mpd"), Some(PlaylistType::Dash));
    assert_eq!(type_from_content_type("application/x-mpegurl"), Some(PlaylistType::Hls));
    assert_eq!(
        type_from_content_type("application/vnd.apple.mpegurl"),
        Some(PlaylistType::Hls)
    );
    assert_eq!(type_from_content_type("text/plain"), None);
}

#[test]
fn inline_playlists_are_base64() {
    assert_eq!(
        inline_playlist("data:application/x-mpegurl;base64,I0VYVE0zVQ==")
            .unwrap()
            .unwrap(),
        b"#EXTM3U".to_vec()
    );
    assert!(matches!(
        inline_playlist("data:application/x-mpegurl;base64,***"),
        Some(Err(Error::Other(m))) if m == "Invalid symbol 42, offset 0."
    ));
    assert!(inline_playlist("https://a.example/x.m3u8").is_none());
}
