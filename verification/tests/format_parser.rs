use vsd::error::Error;
use vsd::format::parser::{BaseFormat, Field, Filter, FilterOp, FormatExpr};

#[test]
fn parse_keyword() {
    assert_eq!(
        FormatExpr::parse("bv").unwrap(),
        FormatExpr::Single {
            base: BaseFormat::BestVideo,
            filters: vec![],
        }
    );
}

#[test]
fn parse_index() {
    assert_eq!(FormatExpr::parse("3").unwrap(), FormatExpr::Index(2));
}

#[test]
fn parse_merge() {
    assert_eq!(
        FormatExpr::parse("bv+ba+s").unwrap(),
        FormatExpr::Merge(vec![
            FormatExpr::Single {
                base: BaseFormat::BestVideo,
                filters: vec![],
            },
            FormatExpr::Single {
                base: BaseFormat::BestAudio,
                filters: vec![],
            },
            FormatExpr::Single {
                base: BaseFormat::Sub,
                filters: vec![],
            },
        ])
    );
}

#[test]
fn parse_fallback() {
    if let FormatExpr::Fallback(parts) =
        FormatExpr::parse("bv[height=1080]+ba / bv[height=720]+ba").unwrap()
    {
        assert_eq!(parts.len(), 2);
    } else {
        panic!("expected fallback");
    }
}

#[test]
fn parse_filter() {
    assert_eq!(
        FormatExpr::parse("ba[language=en]").unwrap(),
        FormatExpr::Single {
            base: BaseFormat::BestAudio,
            filters: vec![Filter {
                field: Field::Language,
                op: FilterOp::Eq,
                value: "en".to_owned(),
            }],
        }
    );
}

#[test]
fn parse_filters() {
    if let FormatExpr::Single { filters, .. } =
        FormatExpr::parse("bv[height<=720][vcodec^=avc1]").unwrap()
    {
        assert_eq!(filters.len(), 2);
    } else {
        panic!("expected single");
    }
}

fn single(base: BaseFormat, filters: Vec<Filter>) -> FormatExpr {
    FormatExpr::Single { base, filters }
}

fn filter(field: Field, op: FilterOp, value: &str) -> Filter {
    Filter {
        field,
        op,
        value: value.to_owned(),
    }
}

#[test]
fn parse_best_shorthand_expands_to_video_and_audio() {
    let f = vec![filter(Field::Height, FilterOp::Le, "720")];
    assert_eq!(
        FormatExpr::parse(" b[height <= 720] ").unwrap(),
        FormatExpr::Merge(vec![
            single(BaseFormat::BestVideo, f.clone()),
            single(BaseFormat::BestAudio, f),
        ])
    );
    assert_eq!(
        FormatExpr::parse("worst").unwrap(),
        FormatExpr::Merge(vec![
            single(BaseFormat::WorstVideo, vec![]),
            single(BaseFormat::WorstAudio, vec![]),
        ])
    );
}

#[test]
fn parse_operators_in_priority_order() {
    let cases = [
        ("vcodec*=avc", FilterOp::Contains, "avc"),
        ("vcodec^=avc", FilterOp::StartsWith, "avc"),
        ("vcodec$=avc", FilterOp::EndsWith, "avc"),
        ("height>=720", FilterOp::Ge, "720"),
        ("height!=720", FilterOp::Ne, "720"),
        ("height<720", FilterOp::Lt, "720"),
        ("height>720", FilterOp::Gt, "720"),
    ];
    for (text, op, value) in cases {
        let field = if text.starts_with("vcodec") {
            Field::Vcodec
        } else {
            Field::Height
        };
        let expr = FormatExpr::parse(&format!("bv[{text}]")).unwrap();
        assert_eq!(
            expr,
            single(BaseFormat::BestVideo, vec![filter(field, op, value)])
        );
    }
}

#[test]
fn parse_brackets_hide_separators() {
    assert_eq!(
        FormatExpr::parse("ba[language=a/b+c]").unwrap(),
        single(
            BaseFormat::BestAudio,
            vec![filter(Field::Language, FilterOp::Eq, "a/b+c")]
        )
    );
}

#[test]
fn parse_fallback_of_merges_and_indices() {
    assert_eq!(
        FormatExpr::parse("1+2/allsub").unwrap(),
        FormatExpr::Fallback(vec![
            FormatExpr::Merge(vec![FormatExpr::Index(0), FormatExpr::Index(1)]),
            single(BaseFormat::AllSub, vec![]),
        ])
    );
    assert!(matches!(
        FormatExpr::parse("+7"),
        Err(Error::FormatParse(m)) if m == "unknown keyword ''"
    ));
}

#[test]
fn parse_errors() {
    for text in [
        "",
        "   ",
        "0",
        "bestest",
        "bv[height=720",
        "bv[foo=1]",
        "bv[height]",
        "bv+",
        "bv/ba+nope",
    ] {
        assert!(
            matches!(FormatExpr::parse(text), Err(Error::FormatParse(_))),
            "{text}"
        );
    }
    assert!(matches!(
        FormatExpr::parse("0"),
        Err(Error::FormatParse(m)) if m == "stream index must be >= 1, got 0"
    ));
    assert!(matches!(
        FormatExpr::parse("nope"),
        Err(Error::FormatParse(m)) if m == "unknown keyword 'nope'"
    ));
    assert!(matches!(
        FormatExpr::parse("bv[foo=1]"),
        Err(Error::FormatParse(m)) if m == "unknown field 'foo'"
    ));
    assert!(matches!(
        FormatExpr::parse("bv[height]"),
        Err(Error::FormatParse(m)) if m == "invalid filter '[height]'"
    ));
    assert!(matches!(
        FormatExpr::parse("bv[height=1"),
        Err(Error::FormatParse(m)) if m == "unclosed bracket in '[height=1'"
    ));
}

#[test]
fn try_parse_reports_misordered_brackets() {
    assert!(FormatExpr::try_parse("bv[height=1]][width=2]").is_none());
    match FormatExpr::try_parse("bv") {
        Some(Ok(e)) => assert_eq!(e, single(BaseFormat::BestVideo, vec![])),
        _ => panic!("expected a parsed expression"),
    }
}
