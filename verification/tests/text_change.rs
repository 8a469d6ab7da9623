use shelv::apply_changes::apply_text_changes;
use shelv::byte_span::{ByteSpan, RangeRelation, UnOrderedByteSpan};
use shelv::text_change::{TextChange, TextChangeError};

#[test]
pub fn test_cursor_extraction_from_string() {
    let (text, cursor) = TextChange::try_extract_cursor("- a{||}b".to_string());
    assert_eq!(text, "- ab");
    assert_eq!(cursor, Some(ByteSpan::new(3, 3)));

    let (text, cursor) = TextChange::try_extract_cursor("- {|}a{|}b".to_string());
    assert_eq!(text, "- ab");
    assert_eq!(cursor, Some(ByteSpan::new(2, 3)));

    let (text, cursor) = TextChange::try_extract_cursor("- a{|}b".to_string());
    assert_eq!(text, "- a{|}b");
    assert_eq!(cursor, None);
}

#[test]
pub fn test_several_text_changes_in_order() {
    let mut text = "a b".to_string();

    let a_pos = text.find("a").unwrap();
    let b_pos = text.find("b").unwrap();

    let changes = vec![
        TextChange::Insert(ByteSpan::new(a_pos, a_pos + 1), "hello".into()),
        TextChange::Insert(ByteSpan::new(b_pos, b_pos + 1), "world".into()),
        TextChange::Insert(ByteSpan::new(b_pos + 1, b_pos + 1), "!".into()),
    ];

    apply_text_changes(&mut text, Some(UnOrderedByteSpan::new(0, 0)), changes).unwrap();
    assert_eq!(text, "hello world!");
}

#[test]
pub fn test_several_text_changes_out_of_order() {
    let mut text = "a b".to_string();

    let a_pos = text.find("a").unwrap();
    let b_pos = text.find("b").unwrap();

    let changes = vec![
        TextChange::Insert(ByteSpan::new(b_pos + 1, b_pos + 1), "!".into()),
        TextChange::Insert(ByteSpan::new(b_pos, b_pos + 1), "world".into()),
        TextChange::Insert(ByteSpan::new(a_pos, a_pos + 1), "hello".into()),
    ];

    apply_text_changes(&mut text, Some(UnOrderedByteSpan::new(0, 0)), changes).unwrap();
    assert_eq!(text, "hello world!");
}

#[test]
pub fn test_overlapping_text_changes_are_not_allowed() {
    let mut text = "a b".to_string();

    let a_pos = text.find("a").unwrap();
    let b_pos = text.find("b").unwrap();

    let changes = vec![
        TextChange::Insert(ByteSpan::new(a_pos, b_pos + 1), "hello".into()),
        TextChange::Insert(ByteSpan::new(b_pos, b_pos + 1), "world".into()),
    ];

    let cursor = apply_text_changes(&mut text, Some(UnOrderedByteSpan::new(0, 0)), changes);
    assert!(matches!(cursor, Err(TextChangeError::OverlappingChanges)));
    assert_eq!(text, "a b");
}

#[test]
pub fn test_cursor_adjacement_cursor_inside_replacement() {
    let (mut text, cursor) = TextChange::try_extract_cursor("ab{||}cd".to_string());

    let start = text.find("b").unwrap();
    let end = text.find("d").unwrap();

    let changes = vec![
        TextChange::Insert(ByteSpan::new(start, end), "oops".into()),
        TextChange::Insert(ByteSpan::new(0, 1), "".into()),
    ];

    let cursor =
        apply_text_changes(&mut text, Some(cursor.unwrap().unordered()), changes).unwrap();
    assert_eq!(
        TextChange::encode_cursor(&text, cursor.unwrap()),
        "{|}oops{|}d"
    );
}

#[test]
pub fn test_cursor_adjacement_selection_contains_replacement() {
    let (mut text, cursor) = TextChange::try_extract_cursor("a{|}bcde{|}f".to_string());

    let changes = vec![
        TextChange::Insert(
            ByteSpan::new(text.find("c").unwrap(), text.find("f").unwrap()),
            "oops".into(),
        ),
        TextChange::Insert(ByteSpan::new(0, 1), "".into()),
    ];

    let cursor =
        apply_text_changes(&mut text, Some(cursor.unwrap().unordered()), changes).unwrap();
    assert_eq!(
        TextChange::encode_cursor(&text, cursor.unwrap()),
        "{|}boops{|}f"
    );
}

#[test]
pub fn test_cursor_adjacement_selection_start_inside_replacement() {
    let (mut text, cursor) = TextChange::try_extract_cursor("ab{|}cd{|}e".to_string());

    let changes = vec![
        TextChange::Insert(
            ByteSpan::new(text.find("b").unwrap(), text.find("d").unwrap()),
            "oops".into(),
        ),
        TextChange::Insert(ByteSpan::new(text.len(), text.len()), "!".into()),
    ];

    let cursor =
        apply_text_changes(&mut text, Some(cursor.unwrap().unordered()), changes).unwrap();
    assert_eq!(
        TextChange::encode_cursor(&text, cursor.unwrap()),
        "a{|}oopsd{|}e!"
    );
}

#[test]
pub fn test_cursor_adjacement_selection_end_inside_replacement() {
    let (mut text, cursor) = TextChange::try_extract_cursor("ab{|}cd{|}efj".to_string());

    let changes = vec![
        TextChange::Insert(
            ByteSpan::new(text.find("d").unwrap(), text.find("j").unwrap()),
            "oops".into(),
        ),
        TextChange::Insert(ByteSpan::new(0, 1), "!!".into()),
    ];

    let cursor =
        apply_text_changes(&mut text, Some(cursor.unwrap().unordered()), changes).unwrap();
    assert_eq!(
        TextChange::encode_cursor(&text, cursor.unwrap()),
        "!!b{|}coops{|}j"
    );
}

// ---- further cases ----

#[test]
fn marker_in_inserted_text_places_the_cursor() {
    let mut text = "abc".to_string();
    let changes = vec![TextChange::Insert(ByteSpan::new(1, 2), "X{||}Y".into())];
    let cursor = apply_text_changes(&mut text, Some(UnOrderedByteSpan::new(0, 0)), changes)
        .unwrap()
        .unwrap();
    assert_eq!(text, "aXYc");
    assert_eq!(cursor, UnOrderedByteSpan::new(2, 2));
}

#[test]
fn no_previous_cursor_gives_no_cursor() {
    let mut text = "abc".to_string();
    let changes = vec![TextChange::Insert(ByteSpan::new(0, 0), "{||}".into())];
    let cursor = apply_text_changes(&mut text, None, changes).unwrap();
    assert_eq!(cursor, None);
    assert_eq!(text, "abc");
}

#[test]
fn backwards_selection_keeps_its_direction() {
    let mut text = "hello".to_string();
    let changes = vec![TextChange::Insert(ByteSpan::new(0, 0), ">> ".into())];
    let cursor = apply_text_changes(&mut text, Some(UnOrderedByteSpan::new(4, 1)), changes)
        .unwrap()
        .unwrap();
    assert_eq!(text, ">> hello");
    assert_eq!(cursor, UnOrderedByteSpan::new(7, 4));
}

#[test]
fn two_changes_commute() {
    let changes_a = || {
        vec![
            TextChange::Insert(ByteSpan::new(0, 1), "A".into()),
            TextChange::Insert(ByteSpan::new(2, 3), "C".into()),
        ]
    };
    let mut first = "abc".to_string();
    apply_text_changes(&mut first, None, changes_a()).unwrap();
    let mut second = "abc".to_string();
    apply_text_changes(&mut second, None, changes_a().into_iter().rev().collect()).unwrap();
    assert_eq!(first, "AbC");
    assert_eq!(first, second);
}

#[test]
fn encode_cursor_writes_markers() {
    assert_eq!(TextChange::encode_cursor("abc", UnOrderedByteSpan::new(1, 1)), "a{||}bc");
    assert_eq!(TextChange::encode_cursor("abc", UnOrderedByteSpan::new(2, 1)), "a{|}b{|}c");
}

#[test]
fn span_relations() {
    let s = ByteSpan::new(2, 4);
    assert_eq!(ByteSpan::new(0, 2).relative_to(s), RangeRelation::Before);
    assert_eq!(ByteSpan::new(4, 6).relative_to(s), RangeRelation::After);
    assert_eq!(ByteSpan::new(2, 3).relative_to(s), RangeRelation::Inside);
    assert_eq!(ByteSpan::new(1, 5).relative_to(s), RangeRelation::Contains);
    assert_eq!(ByteSpan::new(1, 3).relative_to(s), RangeRelation::EndInside);
    assert_eq!(ByteSpan::new(3, 5).relative_to(s), RangeRelation::StartInside);
    assert_eq!(ByteSpan::new(5, 1), ByteSpan::new(1, 5));
    assert!(s.contains_pos(2) && !s.contains_pos(4));
    assert!(s.contains(ByteSpan::new(3, 4)));
    assert_eq!(UnOrderedByteSpan::new(5, 1).ordered(), ByteSpan::new(1, 5));
}

#[test]
fn in_order_batch_with_deletions_lands_every_change() {
    let mut text = "abcdefghij".to_string();
    let changes = vec![
        TextChange::Insert(ByteSpan::new(1, 3), "".into()),
        TextChange::Insert(ByteSpan::new(3, 4), "XY".into()),
        TextChange::Insert(ByteSpan::new(6, 6), "!".into()),
        TextChange::Insert(ByteSpan::new(8, 10), "".into()),
    ];
    apply_text_changes(&mut text, None, changes).unwrap();
    assert_eq!(text, "aXYef!gh");
}

#[test]
fn overlap_with_an_earlier_change_is_refused() {
    let mut text = "abcdef".to_string();
    let changes = vec![
        TextChange::Insert(ByteSpan::new(0, 1), "z".into()),
        TextChange::Insert(ByteSpan::new(2, 4), "y".into()),
        TextChange::Insert(ByteSpan::new(3, 5), "x".into()),
    ];
    let r = apply_text_changes(&mut text, None, changes);
    assert!(matches!(r, Err(TextChangeError::OverlappingChanges)));
    assert_eq!(text, "abcdef");
}

#[test]
fn cursor_outside_an_in_order_batch_follows_the_text() {
    let changes = || {
        vec![
            TextChange::Insert(ByteSpan::new(1, 3), "".into()),
            TextChange::Insert(ByteSpan::new(4, 4), "XYZ".into()),
        ]
    };
    let mut text = "abcdefghij".to_string();
    let after = apply_text_changes(&mut text, Some(UnOrderedByteSpan::new(9, 7)), changes())
        .unwrap()
        .unwrap();
    assert_eq!(text, "adXYZefghij");
    assert_eq!(after, UnOrderedByteSpan::new(10, 8));

    let mut text = "abcdefghij".to_string();
    let before = apply_text_changes(&mut text, Some(UnOrderedByteSpan::new(1, 0)), changes())
        .unwrap()
        .unwrap();
    assert_eq!(before, UnOrderedByteSpan::new(1, 0));
}

#[test]
fn spans_from_ranges_are_ordered() {
    assert_eq!(ByteSpan::from_range(&(2..5)), ByteSpan::new(2, 5));
    assert_eq!(ByteSpan::from_range(&(5..2)), ByteSpan::new(2, 5));
    assert_eq!(ByteSpan::new(3, 7).range(), 3..7);
}

#[test]
fn encoded_cursor_is_extracted_again() {
    for (text, cursor) in [
        ("hello world", UnOrderedByteSpan::new(3, 3)),
        ("hello world", UnOrderedByteSpan::new(8, 2)),
        ("", UnOrderedByteSpan::new(0, 0)),
        ("añb", UnOrderedByteSpan::new(1, 3)),
    ] {
        let encoded = TextChange::encode_cursor(text, cursor);
        let (back, extracted) = TextChange::try_extract_cursor(encoded);
        assert_eq!(back, text);
        assert_eq!(extracted, Some(cursor.ordered()));
    }
}
