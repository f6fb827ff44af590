use vsd::format::parser::{Field, FilterOp};
use vsd::format::text::{matches_text, matches_text_field};

#[test]
fn language_matches_listed_values_and_their_regions() {
    assert!(matches_text("en-US", &FilterOp::Eq, "fr, en"));
    assert!(matches_text(" EN ", &FilterOp::Eq, "en"));
    assert!(!matches_text("eng", &FilterOp::Eq, "en"));
    assert!(!matches_text("en-US", &FilterOp::Ne, "en"));
    assert!(matches_text("es", &FilterOp::Ne, "en,fr"));
}

#[test]
fn text_comparisons_ignore_case_and_outer_space() {
    assert!(matches_text("avc1.640028,mp4a.40.2", &FilterOp::Contains, " MP4A "));
    assert!(matches_text("AVC1.640028", &FilterOp::StartsWith, "avc1"));
    assert!(matches_text("hvc1.1.6.L93", &FilterOp::EndsWith, "l93"));
    assert!(!matches_text("hvc1", &FilterOp::EndsWith, "xhvc1"));
    assert!(matches_text("anything", &FilterOp::Contains, ""));
}

#[test]
fn ordering_operators_never_pass_on_text() {
    assert!(!matches_text("b", &FilterOp::Gt, "a"));
    assert!(!matches_text("a", &FilterOp::Le, "a"));
}

#[test]
fn text_fields_and_numeric_fields() {
    let none: Option<String> = None;
    assert_eq!(
        matches_text_field(&Field::Resolution, Some((1920, 1080)), &none, &none, &FilterOp::Eq, "1920x1080"),
        Some(true)
    );
    assert_eq!(
        matches_text_field(&Field::Resolution, None, &none, &none, &FilterOp::Eq, ""),
        Some(true)
    );
    assert_eq!(
        matches_text_field(
            &Field::Language,
            None,
            &Some("pt-BR".to_string()),
            &none,
            &FilterOp::Eq,
            "PT"
        ),
        Some(true)
    );
    assert_eq!(
        matches_text_field(&Field::Vcodec, None, &none, &Some("avc1".to_string()), &FilterOp::StartsWith, "hev"),
        Some(false)
    );
    assert_eq!(
        matches_text_field(&Field::Height, Some((1920, 1080)), &none, &none, &FilterOp::Eq, "1080"),
        None
    );
}
