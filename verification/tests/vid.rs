use vsd::downloader::vid::{cenc_key, chunk_ranges, lookup_key, strip_png_header};
use vsd::error::Error;
use vsd::playlist::types::Range;

fn keys() -> Vec<(String, String)> {
    vec![
        ("a1".to_owned(), "k1".to_owned()),
        ("b2".to_owned(), "k2".to_owned()),
        ("a1".to_owned(), "k3".to_owned()),
    ]
}

#[test]
fn later_pairs_win() {
    assert_eq!(lookup_key(&keys(), "a1").as_deref(), Some("k3"));
    assert_eq!(lookup_key(&keys(), "b2").as_deref(), Some("k2"));
    assert_eq!(lookup_key(&keys(), "zz"), None);
}

#[test]
fn cenc_key_by_default_kid() {
    let never = || -> Result<Vec<String>, Error> { panic!("pssh read without need") };
    assert_eq!(cenc_key(Some("b2"), &keys(), &never).unwrap(), "k2");
}

#[test]
fn cenc_key_falls_back_to_pssh_kids() {
    let kids = || Ok(vec!["zz".to_owned(), "b2".to_owned(), "a1".to_owned()]);
    assert_eq!(cenc_key(Some("none"), &keys(), &kids).unwrap(), "k2");
    let none = || Ok(vec!["zz".to_owned()]);
    match cenc_key(Some("none"), &keys(), &none) {
        Err(Error::Other(m)) => assert_eq!(m, "Unable to determine key for this stream."),
        r => panic!("unexpected {r:?}"),
    }
    let failing = || Err(Error::Other("pssh".to_owned()));
    match cenc_key(Some("none"), &keys(), &failing) {
        Err(Error::Other(m)) => assert_eq!(m, "pssh"),
        r => panic!("unexpected {r:?}"),
    }
}

#[test]
fn cenc_key_errors() {
    let kids = || Ok(vec![]);
    match cenc_key(None, &keys(), &kids) {
        Err(Error::Other(m)) => assert_eq!(m, "Unable to determine default kid for this stream."),
        r => panic!("unexpected {r:?}"),
    }
    match cenc_key(Some("a1"), &vec![], &kids) {
        Err(Error::MissingKey(k)) => assert_eq!(k, "a1"),
        r => panic!("unexpected {r:?}"),
    }
}

#[test]
fn png_header_is_stripped() {
    let mut b = vec![0x89, 0x50, 0x4e, 0x47, 0x0d, 0x0a, 0x1a, 0x0a];
    b.extend_from_slice(&[0x47, 1, 2]);
    assert_eq!(strip_png_header(b), vec![0x47, 1, 2]);
    assert_eq!(strip_png_header(vec![0x47, 1, 2]), vec![0x47, 1, 2]);
    assert_eq!(strip_png_header(vec![0x89, 0x50]), vec![0x89, 0x50]);
}

#[test]
fn segment_is_split_in_chunks() {
    assert_eq!(chunk_ranges(0, 10), vec![]);
    assert_eq!(chunk_ranges(10, 10), vec![Range(0, 9)]);
    assert_eq!(chunk_ranges(25, 10), vec![Range(0, 9), Range(10, 19), Range(20, 24)]);
    assert_eq!(chunk_ranges(3, 1), vec![Range(0, 0), Range(1, 1), Range(2, 2)]);
    assert_eq!(chunk_ranges(u64::MAX, u64::MAX), vec![Range(0, u64::MAX - 1)]);
}
