use vsd::downloader::step::{
    initial, segment_step, DecrypterKind, DecrypterSetup, DownloadState, SegmentAction,
};
use vsd::playlist::types::{Key, KeyMethod};

fn key(method: KeyMethod, iv: Option<&str>) -> Key {
    Key { default_kid: None, iv: iv.map(|x| x.to_string()), method, uri: None }
}

#[test]
fn hls_key_without_iv_counts_on() {
    let s0 = initial();
    assert_eq!(s0, DownloadState { decrypter: DecrypterKind::Unencrypted, auto_increment_iv: false });
    let k = key(KeyMethod::Aes128, None);
    let (s1, a1) = segment_step(s0, true, Some(&k), 3, false);
    assert_eq!(s1, DownloadState { decrypter: DecrypterKind::Aes128, auto_increment_iv: true });
    assert_eq!(a1, SegmentAction { increment_iv: false, setup: Some(DecrypterSetup::Aes128), download: true });
    let (s2, a2) = segment_step(s1, true, None, 3, false);
    assert_eq!(s2, s1);
    assert!(a2.increment_iv);
    let (_, a3) = segment_step(s1, true, None, 1, false);
    assert!(!a3.increment_iv);
    let (_, a4) = segment_step(s1, false, None, 3, true);
    assert_eq!(a4, SegmentAction { increment_iv: false, setup: None, download: false });
}

#[test]
fn hls_key_with_iv_does_not_count_on() {
    let k = key(KeyMethod::SampleAes, Some("0x01"));
    let (s1, a1) = segment_step(initial(), true, Some(&k), 3, false);
    assert_eq!(s1, DownloadState { decrypter: DecrypterKind::SampleAes, auto_increment_iv: false });
    assert_eq!(a1.setup, Some(DecrypterSetup::SampleAes));
    assert!(!segment_step(s1, true, None, 3, false).1.increment_iv);
}

#[test]
fn cenc_is_set_up_once() {
    let k = key(KeyMethod::Cenc, None);
    let (s1, a1) = segment_step(initial(), true, Some(&k), 2, false);
    assert_eq!(a1.setup, Some(DecrypterSetup::Cenc));
    let (s2, a2) = segment_step(s1, true, Some(&k), 2, false);
    assert_eq!(s2, s1);
    assert_eq!(a2.setup, None);
    let other = key(KeyMethod::Other("X".to_string()), None);
    assert_eq!(segment_step(s1, true, Some(&other), 2, false).1.setup, None);
}
