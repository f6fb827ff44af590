use vsd::format::selector::{build_choices, keep_selected, raw_selection, ChoiceItem};
use vsd::playlist::types::MediaType;

fn kinds() -> Vec<MediaType> {
    vec![
        MediaType::Audio,
        MediaType::Video,
        MediaType::Subtitles,
        MediaType::Video,
        MediaType::Audio,
    ]
}

#[test]
fn choices_group_streams_by_media_type() {
    let (items, targets) = build_choices(&kinds(), &[1, 4]);
    assert_eq!(
        items,
        vec![
            ChoiceItem::Separator(MediaType::Video),
            ChoiceItem::Stream { index: 1, checked: true },
            ChoiceItem::Stream { index: 3, checked: false },
            ChoiceItem::Separator(MediaType::Audio),
            ChoiceItem::Stream { index: 0, checked: false },
            ChoiceItem::Stream { index: 4, checked: true },
            ChoiceItem::Separator(MediaType::Subtitles),
            ChoiceItem::Stream { index: 2, checked: false },
        ]
    );
    assert_eq!(
        targets,
        vec![None, Some(1), Some(3), None, Some(0), Some(4), None, Some(2)]
    );
}

#[test]
fn choices_of_no_streams_are_empty() {
    let (items, targets) = build_choices(&vec![], &[0]);
    assert!(items.is_empty());
    assert!(targets.is_empty());
}

#[test]
fn blank_prompt_keeps_checked_streams() {
    let (items, _) = build_choices(&kinds(), &[1, 4]);
    assert_eq!(raw_selection("", &items), vec![1, 4]);
    assert_eq!(raw_selection("  \t\n", &items), vec![1, 4]);
}

#[test]
fn typed_numbers_pick_list_entries() {
    let (items, _) = build_choices(&kinds(), &[1, 4]);
    // List numbers: 1 -> stream 1, 2 -> 3, 3 -> 0, 4 -> 4, 5 -> 2.
    assert_eq!(raw_selection("2, 5", &items), vec![3, 2]);
    assert_eq!(raw_selection(" 3 ,x, 0, 9, +1 \n", &items), vec![0, 1]);
    assert_eq!(raw_selection("4,4", &items), vec![4, 4]);
    assert_eq!(raw_selection(",,", &items), Vec::<usize>::new());
}

#[test]
fn keep_selected_keeps_order_of_streams() {
    let names = vec!["a", "b", "c", "d"];
    assert_eq!(keep_selected(names.clone(), &[3, 0, 9]), vec!["a", "d"]);
    assert_eq!(keep_selected(names.clone(), &[]), Vec::<&str>::new());
    assert_eq!(keep_selected(names, &[2, 2]), vec!["c"]);
}
