use vsd::progress::ProgressInner;

#[test]
fn updates_count_parts_and_bytes() {
    let mut p = ProgressInner::new("vid", 2);
    assert!(!p.is_done());
    p.update(100);
    p.skip(50);
    assert_eq!((p.counter, p.total, p.total_bytes), (2, 2, 150));
    assert_eq!((p.session_counter, p.session_bytes), (1, 100));
    assert!(p.is_done());
    assert_eq!(p.id, "vid");
}

#[test]
fn total_grows_with_extra_parts() {
    let mut p = ProgressInner::new("aud", 1);
    p.update(1);
    p.update(1);
    assert_eq!((p.counter, p.total), (2, 2));
    p.update_total(10);
    assert_eq!(p.total, 10);
    assert!(!p.is_done());
}
