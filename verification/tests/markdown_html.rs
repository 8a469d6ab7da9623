use shelv::markdown_to_html::{convert_events, parse_events, MdEvent, Metadata};

// The front matter is read as YAML, as the site does.
fn read_metadata(text: &str) -> Option<Metadata> {
    let value: serde_yaml_ng::Value = serde_yaml_ng::from_str(text).ok()?;
    let field = |name: &str| value.get(name).and_then(|v| v.as_str()).map(str::to_string);
    Some(Metadata { date: field("date")?, title: field("title")? })
}

fn markdown_to_html(markdown: &str, base_path: &str) -> (String, Option<Metadata>) {
    let events = parse_events(markdown);
    let parses: Vec<bool> = events
        .iter()
        .map(|e| match e {
            MdEvent::Text(t) => read_metadata(t).is_some(),
            _ => false,
        })
        .collect();
    let (html, front) = convert_events(events, base_path, &parses);
    (html, front.and_then(|t| read_metadata(&t)))
}

fn convert(markdown: &str, base_path: &str) -> (String, Option<String>) {
    shelv::markdown_to_html::markdown_to_html(markdown, base_path, &Vec::new())
}

#[test]
fn test_basic_markdown() {
    let markdown = "# Hello World\n\nThis is a paragraph.";
    let (html, metadata) = markdown_to_html(markdown, "update-log/1.4.0-test");

    assert!(html.contains("<h1>"));
    assert!(html.contains("Hello World"));
    assert!(html.contains("<p>"));
    assert!(html.contains("This is a paragraph."));
    assert!(metadata.is_none());
}

#[test]
fn test_code_blocks() {
    let markdown = "```rust\nfn main() {}\n```";
    let (html, _) = markdown_to_html(markdown, "update-log/1.4.0-test");

    assert!(html.contains("<code"));
    assert!(html.contains("fn main()"));
}

#[test]
fn test_lists() {
    let markdown = "- Item 1\n- Item 2\n- Item 3";
    let (html, _) = markdown_to_html(markdown, "update-log/1.4.0-test");

    assert!(html.contains("<ul>"));
    assert!(html.contains("<li>"));
    assert!(html.contains("Item 1"));
}

#[test]
fn test_links() {
    let markdown = "[GitHub](https://github.com)";
    let (html, _) = markdown_to_html(markdown, "update-log/1.4.0-test");

    assert!(html.contains("<a "));
    assert!(html.contains("href=\"https://github.com\""));
    assert!(html.contains("GitHub"));
}

#[test]
fn test_relative_image_path() {
    let markdown = "![Alt text](screenshot.png)";
    let (html, _) = markdown_to_html(markdown, "update-log/1.4.0-test");

    assert!(html.contains("<img "));
    assert!(html.contains("src=\"/update-log/1.4.0-test/screenshot.png\""));
    assert!(html.contains("alt=\"Alt text\""));
}

#[test]
fn test_absolute_image_path() {
    let markdown = "![Alt text](/assets/image.png)";
    let (html, _) = markdown_to_html(markdown, "update-log/1.4.0-test");

    assert!(html.contains("<img "));
    assert!(html.contains("src=\"/assets/image.png\""));
    assert!(html.contains("alt=\"Alt text\""));
}

#[test]
fn test_http_image_path() {
    let markdown = "![Alt text](https://example.com/image.png)";
    let (html, _) = markdown_to_html(markdown, "update-log/1.4.0-test");

    assert!(html.contains("<img "));
    assert!(html.contains("src=\"https://example.com/image.png\""));
    assert!(html.contains("alt=\"Alt text\""));
}

#[test]
fn test_frontmatter_parsing() {
    let markdown = r#"---
date: 2025-01-15
title: "Word Jump Mode"
---

# Version 1.4.0

This is the content."#;
    let (html, metadata) = markdown_to_html(markdown, "update-log/1.4.0-test");

    assert!(html.contains("<h1>"));
    assert!(html.contains("Version 1.4.0"));
    assert!(html.contains("This is the content."));
    assert!(!html.contains("date:"));
    assert!(!html.contains("title:"));

    let meta = metadata.expect("Metadata should be parsed");
    assert_eq!(meta.date, "2025-01-15");
    assert_eq!(meta.title, "Word Jump Mode");
}

#[test]
fn test_missing_frontmatter() {
    let markdown = "# No Frontmatter\n\nJust regular content.";
    let (html, metadata) = markdown_to_html(markdown, "update-log/1.4.0-test");

    assert!(html.contains("<h1>"));
    assert!(html.contains("No Frontmatter"));
    assert!(metadata.is_none());
}

#[test]
fn test_invalid_frontmatter() {
    let markdown = r#"---
invalid yaml here: [broken
---

# Content"#;
    let (html, metadata) = markdown_to_html(markdown, "update-log/1.4.0-test");

    assert!(html.contains("<h1>"));
    assert!(html.contains("Content"));
    assert!(metadata.is_none());
}

#[test]
fn a_video_image_becomes_a_video_element() {
    let (html, _) = convert("![clip](demo.mp4)", "update-log/1.4.0-test");
    assert!(html.contains("<video controls autoplay loop muted>"));
    assert!(html.contains("<source src=\"/update-log/1.4.0-test/demo.mp4\" type=\"video/mp4\">"));
    assert!(!html.contains("clip"));
    assert!(!html.contains("<img"));
}

#[test]
fn front_matter_text_that_does_not_read_is_left_out_and_the_next_is_tried() {
    let events = vec![
        MdEvent::YamlMetadataStart,
        MdEvent::Text("not it".to_string()),
        MdEvent::Text("date: d\ntitle: t".to_string()),
        MdEvent::Text("after".to_string()),
        MdEvent::YamlMetadataEnd,
    ];
    let parses = vec![false, false, true, false, false];
    let (html, front) = convert_events(events, "base", &parses);
    assert_eq!(front.as_deref(), Some("date: d\ntitle: t"));
    assert!(!html.contains("not it"));
    assert!(html.contains("after"));
}
