use vsd::playlist::master::{reorder, sort_order};
use vsd::playlist::types::MediaType;

#[test]
fn streams_are_listed_video_audio_then_the_rest() {
    let kinds = vec![
        MediaType::Subtitles,
        MediaType::Audio,
        MediaType::Video,
        MediaType::Undefined,
        MediaType::Video,
        MediaType::Audio,
        MediaType::Subtitles,
    ];
    let keys = vec![(0, 0), (20, 128_000), (1280 * 720, 3_000_000), (0, 0), (1920 * 1080, 5_000_000), (60, 96_000), (0, 0)];
    let order = sort_order(&kinds, &keys);
    assert_eq!(order, vec![4, 2, 5, 1, 0, 6, 3]);
}

#[test]
fn equal_keys_keep_their_order() {
    let kinds = vec![MediaType::Video, MediaType::Video, MediaType::Video, MediaType::Audio];
    let keys = vec![(100, 5), (100, 7), (100, 5), (0, 0)];
    assert_eq!(sort_order(&kinds, &keys), vec![1, 0, 2, 3]);
}

#[test]
fn bandwidth_breaks_resolution_ties() {
    let kinds = vec![MediaType::Video; 3];
    let keys = vec![(10, 1), (10, 3), (20, 0)];
    assert_eq!(sort_order(&kinds, &keys), vec![2, 1, 0]);
}

#[test]
fn reorder_follows_positions() {
    let items = vec!["a".to_owned(), "b".to_owned(), "c".to_owned()];
    assert_eq!(reorder(items, &vec![2, 0, 1]), vec!["c", "a", "b"]);
    let none: Vec<String> = Vec::new();
    assert!(reorder(none, &vec![]).is_empty());
}
