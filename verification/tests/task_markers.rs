use shelv::apply_changes::apply_text_changes;
use shelv::commands::{on_space_after_task_markers, CursorLineFacts};
use shelv::text_change::TextChange;

// The line facts below are what the note's markdown structure reports for
// the cursor's line in each text.
fn plain_line(line_start: usize) -> Option<CursorLineFacts> {
    Some(CursorLineFacts { line_start, list_item_content_start: None, in_code_block: false })
}

#[test]
pub fn test_skips_expanding_task_markers_when_not_start_of_line() {
    let (text, cursor) = TextChange::try_extract_cursor("a[]{||}".to_string());
    let changes = on_space_after_task_markers(&text, cursor.unwrap().clone(), plain_line(0));
    assert!(changes.is_none());
}

#[test]
pub fn test_skips_expanding_task_markers_when_in_code_block() {
    let (text, cursor) = TextChange::try_extract_cursor("```\n[]{||}```".to_string());
    let line = Some(CursorLineFacts {
        line_start: 4,
        list_item_content_start: None,
        in_code_block: true,
    });
    let changes = on_space_after_task_markers(&text, cursor.unwrap().clone(), line);
    assert!(changes.is_none());
}

#[test]
pub fn test_space_expands_task_markerss() {
    // Note: the [Space] press in reality adds a space after the cursor
    let test_cases = [
        (
            "## Expanding a task marker on the first empty line ##",
            "[]{||}",
            plain_line(0),
            "- [ ]{||}",
        ),
        (
            "## Expanding a task marker on any empty line ##",
            "a\n[]{||}",
            plain_line(2),
            "a\n- [ ]{||}",
        ),
        (
            "## Expanding a task marker on the start of a list item ##",
            "- []{||}",
            Some(CursorLineFacts {
                line_start: 0,
                list_item_content_start: Some(2),
                in_code_block: false,
            }),
            "- [ ]{||}",
        ),
        (
            "## Expanding a task marker on a nested list item ##",
            "- a\n\t* []{||}",
            Some(CursorLineFacts {
                line_start: 4,
                list_item_content_start: Some(7),
                in_code_block: false,
            }),
            "- a\n\t* [ ]{||}",
        ),
        (
            "## Expanding a task marker from the start of a non-empty line##",
            "[]{||}abc",
            plain_line(0),
            "- [ ]{||}abc",
        ),
    ];

    for (desc, input, line, output) in test_cases {
        let (mut text, cursor) = TextChange::try_extract_cursor(input.to_string());
        let cursor = cursor.unwrap();

        let changes = on_space_after_task_markers(&text, cursor.clone(), line).unwrap();

        let cursor = apply_text_changes(&mut text, Some(cursor.unordered()), changes).unwrap();
        assert_eq!(TextChange::encode_cursor(&text, cursor.unwrap()), output, "test case: {}", desc);
    }
}

#[test]
fn no_line_facts_means_no_change() {
    let (text, cursor) = TextChange::try_extract_cursor("[]{||}".to_string());
    assert!(on_space_after_task_markers(&text, cursor.unwrap(), None).is_none());
}

#[test]
fn nothing_happens_without_a_typed_marker() {
    let (text, cursor) = TextChange::try_extract_cursor("[x{||}".to_string());
    assert!(on_space_after_task_markers(&text, cursor.unwrap(), plain_line(0)).is_none());
}
