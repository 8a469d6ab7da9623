use shelv::byte_span::UnOrderedByteSpan;
use shelv::word_jump::{
    add_keystroke_to_sequence, assign_label, create_jump_points, find_matching_jump,
    has_potential_matches, iterate_over_words, JumpLabel, JumpLabelMatchResult, WordJumpAddress,
};

fn extract_words(text: &str) -> Vec<String> {
    iterate_over_words(text).into_iter().map(|(s, _)| s).collect()
}

fn extract_words_and_labels<'t>(
    text: &'t str,
    jumps: &[WordJumpAddress],
) -> Vec<(&'t str, JumpLabel)> {
    jumps
        .iter()
        .map(|j| (&text[j.span.start..j.span.end], j.label))
        .collect()
}

#[test]
fn test_simple_label_allocation() {
    let label_pallete = ['a', 'b'];

    let labels: Vec<_> = (0..5)
        .map(|index| assign_label(&label_pallete, index))
        .collect();

    assert_eq!(
        labels,
        vec![
            Some(JumpLabel(['a', 'a'])),
            Some(JumpLabel(['a', 'b'])),
            Some(JumpLabel(['b', 'a'])),
            Some(JumpLabel(['b', 'b'])),
            None
        ]
    );
}

#[test]
fn test_english_words() {
    let text = "Hello, world! This is a test; with various-separators.";
    assert_eq!(
        extract_words(text),
        vec![
            "Hello",
            "world",
            "This",
            "is",
            "test",
            "with",
            "various",
            "separators"
        ]
    );
}

#[test]
fn test_single_character_exclusion() {
    let text = "a bb c dd e ff";
    assert_eq!(extract_words(text), vec!["bb", "dd", "ff"]);
}

#[test]
fn test_numbers_two_digits_or_more() {
    let text = "1 22 3 456 7 8901";
    assert_eq!(extract_words(text), vec!["22", "456", "8901"]);
}

#[test]
fn test_numbers_with_words() {
    let text = "test1, test22, 9test, 99test";
    assert_eq!(
        extract_words(text),
        vec!["test1", "test22", "9test", "99test"]
    );
}

#[test]
fn test_only_numbers() {
    let text = "123,456;789";
    assert_eq!(extract_words(text), vec!["123", "456", "789"]);
}

#[test]
fn test_japanese_words() {
    let text = "こんにちは、世界！テスト;です。";
    assert_eq!(
        extract_words(text),
        vec!["こんにちは", "世界", "テスト", "です"]
    );
}

#[test]
fn test_russian_words() {
    let text = "Привет, мир! Это тест;проверка.";
    assert_eq!(
        extract_words(text),
        vec!["Привет", "мир", "Это", "тест", "проверка"]
    );
}

#[test]
fn test_arabic_words() {
    let text = "مرحبا، العالم! هذا اختبار;للكلمات.";
    assert_eq!(
        extract_words(text),
        vec!["مرحبا", "العالم", "هذا", "اختبار", "للكلمات"]
    );
}

#[test]
fn test_mixed_languages() {
    let text = "Hello世界, test123; café-résumé!";
    assert_eq!(
        extract_words(text),
        vec!["Hello世界", "test123", "café", "résumé"]
    );
}

#[test]
fn test_various_separators() {
    let text = "word1🎉word2@#$%test;;another|||final";
    assert_eq!(
        extract_words(text),
        vec!["word1", "word2", "test", "another", "final"]
    );
}

#[test]
fn test_empty_string() {
    assert_eq!(extract_words(""), Vec::<String>::new());
}

#[test]
fn test_only_separators() {
    let text = ",,,;;;...!!!";
    assert_eq!(extract_words(text), Vec::<String>::new());
}

#[test]
fn test_only_single_characters() {
    let text = "a,b;c.d!e";
    assert_eq!(extract_words(text), Vec::<String>::new());
}

#[test]
fn test_two_words_cursor_at_end() {
    let text = "hello world";
    let jumps =
        create_jump_points(text, UnOrderedByteSpan::new(text.len(), text.len()), &['a', 'b'])
            .unwrap();

    assert_eq!(
        extract_words_and_labels(text, &jumps),
        vec![
            ("hello", JumpLabel(['a', 'b'])),
            ("world", JumpLabel(['a', 'a'])),
        ]
    );
}

#[test]
fn test_two_words_cursor_at_start() {
    let text = "hello world";
    let jumps = create_jump_points(text, UnOrderedByteSpan::new(0, 0), &['a', 'b']).unwrap();

    assert_eq!(
        extract_words_and_labels(text, &jumps),
        vec![
            ("hello", JumpLabel(['a', 'a'])),
            ("world", JumpLabel(['a', 'b'])),
        ]
    );
}

#[test]
fn test_exhausted_jump_symbols() {
    let text = "zero one two three four five";
    let cursor = UnOrderedByteSpan::new(13, 13); // Inside "three"
    let jumps = create_jump_points(text, cursor, &['a', 'b']).unwrap();

    assert_eq!(
        extract_words_and_labels(text, &jumps),
        vec![
            ("one", JumpLabel(['b', 'b'])),
            ("two", JumpLabel(['a', 'b'])),
            ("three", JumpLabel(['a', 'a'])),
            ("four", JumpLabel(['b', 'a'])),
        ]
    );
}

#[test]
fn test_two_words_cursor_spanning_both() {
    let text = "hello world";
    let cursor = UnOrderedByteSpan::new(3, 8);
    let jumps = create_jump_points(text, cursor, &['a', 'b']).unwrap();

    assert_eq!(
        extract_words_and_labels(text, &jumps),
        vec![
            ("hello", JumpLabel(['a', 'a'])),
            ("world", JumpLabel(['a', 'b'])),
        ]
    );
}

#[test]
fn test_one_word_cursor_in_middle() {
    let text = "hello";
    let cursor = UnOrderedByteSpan::new(2, 2);
    let jumps = create_jump_points(text, cursor, &['a', 'b']).unwrap();

    assert_eq!(jumps.len(), 1);
    assert_eq!(
        extract_words_and_labels(text, &jumps),
        vec![("hello", JumpLabel(['a', 'a'])),]
    );

    let word_text = &text[jumps[0].span.start..jumps[0].span.end];
    assert_eq!(word_text, "hello");
}

// ---- further cases ----

#[test]
fn no_words_give_no_jump_points() {
    assert!(create_jump_points(",,, !", UnOrderedByteSpan::new(0, 0), &['a', 'b']).is_none());
}

#[test]
fn label_matching_by_prefix() {
    let label = JumpLabel(['a', 'b']);
    assert_eq!(label.check_match(&[]), JumpLabelMatchResult::Possible(0));
    assert_eq!(label.check_match(&['a']), JumpLabelMatchResult::Possible(1));
    assert_eq!(label.check_match(&['a', 'b']), JumpLabelMatchResult::FullMatch);
    assert_eq!(label.check_match(&['b']), JumpLabelMatchResult::NoMatch);
    assert_eq!(label.check_match(&['a', 'b', 'c']), JumpLabelMatchResult::NoMatch);
    assert_eq!(label.to_string(), "ab");
}

#[test]
fn keystrokes_are_kept_up_to_two() {
    let one = add_keystroke_to_sequence(&[], 'x');
    assert_eq!(one.as_slice(), &['x']);
    let two = add_keystroke_to_sequence(&['x'], 'y');
    assert_eq!(two.as_slice(), &['x', 'y']);
    let still_two = add_keystroke_to_sequence(&['x', 'y'], 'z');
    assert_eq!(still_two.as_slice(), &['x', 'y']);
}

#[test]
fn matching_jump_needs_two_keys() {
    let text = "hello world";
    let jumps = create_jump_points(text, UnOrderedByteSpan::new(0, 0), &['a', 'b']).unwrap();
    assert!(find_matching_jump(&jumps, &['a']).is_none());
    let found = find_matching_jump(&jumps, &['a', 'b']).unwrap();
    assert_eq!(&text[found.span.start..found.span.end], "world");
    assert!(has_potential_matches(&jumps, &['a']));
    assert!(!has_potential_matches(&jumps, &['b']));
}

#[test]
fn every_jump_point_gets_its_own_label() {
    let text = "one two three four five six seven eight nine ten eleven twelve";
    let jumps = create_jump_points(text, UnOrderedByteSpan::new(20, 20), &['a', 'b', 'c']).unwrap();
    assert_eq!(jumps.len(), 9);
    for i in 0..jumps.len() {
        for j in (i + 1)..jumps.len() {
            assert_ne!(jumps[i].label, jumps[j].label);
        }
    }
}
