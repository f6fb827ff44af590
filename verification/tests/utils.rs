use vsd::utils::gen_id;

#[test]
fn gen_id_is_seven_hex_digits_of_blake3() {
    let id = gen_id("https://example.com/master.m3u8", "video/720p.m3u8");
    let expected = blake3::hash(b"https://example.com/master.m3u8+video/720p.m3u8").to_hex();
    assert_eq!(id, &expected[..7]);
    assert_eq!(id.len(), 7);
    assert!(id.chars().all(|c| c.is_ascii_hexdigit() && !c.is_ascii_uppercase()));
}

#[test]
fn gen_id_depends_on_both_parts() {
    let a = gen_id("https://a.example", "x");
    let b = gen_id("https://b.example", "x");
    let c = gen_id("https://a.example", "y");
    assert_ne!(a, b);
    assert_ne!(a, c);
    assert_eq!(a, gen_id("https://a.example", "x"));
}
