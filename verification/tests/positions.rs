use shelv::app_ui::char_index_from_byte_index;
use shelv::commands::default_unordered_list_marker;

#[test]
fn char_index_of_byte_offsets() {
    let s = "aé世b";
    assert_eq!(char_index_from_byte_index(s, 0), 0);
    assert_eq!(char_index_from_byte_index(s, 1), 1);
    assert_eq!(char_index_from_byte_index(s, 3), 2);
    assert_eq!(char_index_from_byte_index(s, 6), 3);
    // not the start of a character, or past the end
    assert_eq!(char_index_from_byte_index(s, 2), 4);
    assert_eq!(char_index_from_byte_index(s, 7), 4);
    assert_eq!(char_index_from_byte_index("", 0), 0);
}

#[test]
fn list_markers_by_depth() {
    assert_eq!(default_unordered_list_marker(0), "-");
    assert_eq!(default_unordered_list_marker(1), "*");
    assert_eq!(default_unordered_list_marker(5), "*");
}
