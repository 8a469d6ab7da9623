use shelv::note_eval::live_block_update;
use shelv::byte_span::ByteSpan;
use shelv::note_eval::{
    find_js_output_block_by_id, find_next_available_block_id, print_output_block,
    BlockEvalResult, BlockId, JSBlockLang, SourceHash,
};

#[test]
fn test_javascript_block_language_parse() {
    assert_eq!(JSBlockLang::parse("js"), Some(JSBlockLang::Source(None)));

    assert_eq!(
        JSBlockLang::parse("js 5"),
        Some(JSBlockLang::Source(Some(BlockId(5))))
    );

    let hash = SourceHash::parse("bc").unwrap();
    assert_eq!(
        JSBlockLang::parse("js 5 > #bc"),
        Some(JSBlockLang::Output(BlockId(5), hash))
    );

    assert_eq!(JSBlockLang::parse(""), None);
    assert_eq!(JSBlockLang::parse("python"), None);
    assert_eq!(JSBlockLang::parse("js abc"), None);
    assert_eq!(JSBlockLang::parse("js 5 > #"), None);
    assert_eq!(JSBlockLang::parse("js 5 >"), None);
    assert_eq!(JSBlockLang::parse("js > #bc"), None);
    assert_eq!(JSBlockLang::parse("javascript"), None);
}

#[test]
fn tags_are_written_and_read_back() {
    let id = BlockId(12);
    let hash = SourceHash(0xda0b);
    let source = JSBlockLang::source_lang_with_id(id);
    assert_eq!(source, "js 12");
    assert_eq!(JSBlockLang::parse(&source), Some(JSBlockLang::Source(Some(id))));
    let output = JSBlockLang::output_lang(id, hash);
    assert_eq!(output, "js 12 > #da0b");
    assert_eq!(JSBlockLang::parse(&output), Some(JSBlockLang::Output(id, hash)));
}

#[test]
fn hashes_are_hexadecimal() {
    assert_eq!(SourceHash(0x2cd1).to_string(), "2cd1");
    assert_eq!(SourceHash(0xb).to_string(), "b");
    assert_eq!(SourceHash::parse("2CD1"), Some(SourceHash(0x2cd1)));
    assert_eq!(SourceHash::parse("10000"), None);
    assert_eq!(SourceHash::parse("xyz"), None);
    assert_eq!(BlockId(7).to_string(), "7");
}

#[test]
fn hash_of_a_source_is_stable() {
    let a = SourceHash::from("2 + 2");
    let b = SourceHash::from("2 + 2");
    assert_eq!(a, b);
}

#[test]
fn output_block_text() {
    let block = print_output_block(BlockEvalResult {
        body: "4".to_string(),
        output_lang: "js 5 > #2cd1".to_string(),
    });
    assert_eq!(block, "```js 5 > #2cd1\n4\n```");
}

#[test]
fn next_block_number_follows_the_largest() {
    let langs = vec![
        "js 3".to_string(),
        "rust".to_string(),
        "js 10 > #aa".to_string(),
        "js 7".to_string(),
        "js".to_string(),
    ];
    assert_eq!(find_next_available_block_id(&langs), BlockId(8));
    assert_eq!(find_next_available_block_id(&vec![]), BlockId(1));
}

#[test]
fn output_block_is_found_by_number() {
    let blocks = vec![
        (ByteSpan::new(0, 10), "js 10 > #dfgh".to_string()),
        (ByteSpan::new(11, 20), "js 5".to_string()),
        (ByteSpan::new(21, 30), "js 5 > #2".to_string()),
    ];
    assert_eq!(
        find_js_output_block_by_id(&blocks, BlockId(5)),
        Some((ByteSpan::new(21, 30), SourceHash(2)))
    );
    assert_eq!(find_js_output_block_by_id(&blocks, BlockId(10)), None);
    assert_eq!(find_js_output_block_by_id(&blocks, BlockId(4)), None);
}

#[test]
fn a_live_block_is_evaluated_again_only_when_its_hash_changed() {
    let code = "1 + 1";
    let h = SourceHash::from(code);
    assert_eq!(live_block_update(code, Some(h)).map(|x| x.0), None);
    assert_eq!(live_block_update(code, Some(SourceHash(h.0 ^ 1))).map(|x| x.0), Some(h.0));
    assert_eq!(live_block_update(code, None).map(|x| x.0), None);
    assert_eq!(live_block_update("  \n\t", Some(SourceHash(0))).map(|x| x.0), None);
}
