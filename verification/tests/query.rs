use vsd::downloader::playlist::{clamp_threads, parse_query};

fn pairs(v: &[(&str, &str)]) -> Vec<(String, String)> {
    v.iter().map(|(a, b)| (a.to_string(), b.to_string())).collect()
}

#[test]
fn query_pairs_in_order() {
    assert_eq!(parse_query("?a=1&b=2"), pairs(&[("a", "1"), ("b", "2")]));
    assert_eq!(parse_query("??a=x=y&&c&d="), pairs(&[("a", "x=y"), ("d", "")]));
    assert_eq!(parse_query("k=v"), pairs(&[("k", "v")]));
    assert!(parse_query("").is_empty());
    assert!(parse_query("?").is_empty());
}

#[test]
fn threads_are_clamped() {
    assert_eq!(clamp_threads(0), 1);
    assert_eq!(clamp_threads(5), 5);
    assert_eq!(clamp_threads(16), 16);
    assert_eq!(clamp_threads(200), 16);
}
