use vsd::playlist::types::{Key, KeyMethod};
use vsd::dash::segments::{
    protection_key,
    addressing, checked_addressing, expand_timeline, fill_template, Addressing, AddressingFacts,
};
use vsd::error::Error;

fn facts() -> AddressingFacts {
    AddressingFacts {
        rep_segment_list: false,
        set_segment_list: false,
        rep_template: false,
        set_template: false,
        has_timeline: false,
        has_media: false,
        rep_segment_base: false,
        set_segment_base: false,
        rep_base_url: false,
    }
}

#[test]
fn addressing_follows_the_documented_order() {
    let all = AddressingFacts {
        rep_segment_list: true,
        set_segment_list: true,
        rep_template: true,
        set_template: true,
        has_timeline: true,
        has_media: true,
        rep_segment_base: true,
        set_segment_base: true,
        rep_base_url: true,
    };
    assert_eq!(addressing(&all), Addressing::RepresentationSegmentList);
    assert_eq!(
        addressing(&AddressingFacts { rep_segment_list: false, ..all }),
        Addressing::AdaptationSetSegmentList
    );
    let templ = AddressingFacts { rep_segment_list: false, set_segment_list: false, ..all };
    assert_eq!(addressing(&templ), Addressing::TemplateTimeline);
    assert_eq!(
        addressing(&AddressingFacts { has_timeline: false, ..templ }),
        Addressing::TemplateDuration
    );
    assert_eq!(
        addressing(&AddressingFacts { has_timeline: false, has_media: false, ..templ }),
        Addressing::TemplateWithoutMedia
    );
    assert_eq!(
        addressing(&AddressingFacts { rep_segment_base: true, set_segment_base: true, rep_base_url: true, ..facts() }),
        Addressing::RepresentationSegmentBase
    );
    assert_eq!(
        addressing(&AddressingFacts { set_segment_base: true, rep_base_url: true, ..facts() }),
        Addressing::AdaptationSetSegmentBase
    );
    assert_eq!(addressing(&AddressingFacts { rep_base_url: true, ..facts() }), Addressing::PlainBaseUrl);
    assert_eq!(addressing(&facts()), Addressing::Unaddressed);
}

#[test]
fn timeline_needs_media() {
    let f = AddressingFacts { set_template: true, has_timeline: true, ..facts() };
    assert!(matches!(
        checked_addressing(&f),
        Err(Error::DashParse(m)) if m == "Missing @media attribute on SegmentTimeline."
    ));
    assert!(matches!(
        checked_addressing(&AddressingFacts { has_media: true, ..f }),
        Ok(Addressing::TemplateTimeline)
    ));
}

#[test]
fn templates_are_filled() {
    assert_eq!(
        fill_template("$RepresentationID$/seg-$Number%05d$.m4s", "v1", None, 42, 0),
        "v1/seg-00042.m4s"
    );
    assert_eq!(fill_template("t$Time$.mp4", "v", None, 1, 90000), "t90000.mp4");
    assert_eq!(fill_template("a$$b", "v", None, 1, 0), "a$b");
    assert_eq!(fill_template("$Bandwidth$", "v", None, 1, 0), "$Bandwidth$");
    assert_eq!(fill_template("$Bandwidth%03d$", "v", Some(7), 1, 0), "007");
    assert_eq!(fill_template("$Unknown$x$Number$", "v", None, 3, 0), "$Unknown$x3");
    assert_eq!(fill_template("open$Number", "v", None, 3, 0), "open$Number");
    assert_eq!(fill_template("$Number%0d$", "v", None, 3, 0), "$Number%0d$");
    assert_eq!(fill_template("$Number%02d$", "v", None, 123, 0), "123");
}

#[test]
fn timelines_expand() {
    assert_eq!(
        expand_timeline(&vec![(Some(0), 10, 2), (None, 5, 0)], 1, None),
        Some(vec![(1, 0), (2, 10), (3, 20), (4, 30)])
    );
    assert_eq!(
        expand_timeline(&vec![(Some(0), 10, -1), (Some(35), 10, 0)], 1, None),
        Some(vec![(1, 0), (2, 10), (3, 20), (4, 30), (5, 35)])
    );
    assert_eq!(
        expand_timeline(&vec![(None, 10, -1)], 7, Some(25)),
        Some(vec![(7, 0), (8, 10), (9, 20)])
    );
    assert_eq!(expand_timeline(&vec![(Some(u64::MAX), 1, 0)], 1, None), None);
    assert_eq!(expand_timeline(&vec![], 1, None), Some(vec![]));
}

#[test]
fn content_protection_gives_a_cenc_key() {
    use_key(
        protection_key(&vec![(false, None), (true, Some("EB676ABB-CB34-5E96".to_string()))]),
        Some(Some("eb676abbcb345e96")),
    );
    use_key(protection_key(&vec![(true, None)]), Some(None));
    use_key(protection_key(&vec![(false, Some("AA".to_string()))]), None);
    use_key(protection_key(&vec![]), None);
}

fn use_key(k: Option<Key>, want: Option<Option<&str>>) {
    match (k, want) {
        (Some(k), Some(kid)) => {
            assert!(matches!(k.method, KeyMethod::Cenc));
            assert_eq!(k.default_kid.as_deref(), kid);
            assert!(k.iv.is_none() && k.uri.is_none());
        }
        (None, None) => {}
        _ => panic!("unexpected key"),
    }
}
