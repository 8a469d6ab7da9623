use shelv::markdown_to_html::{
    get_video_mime_type, is_video_file, next_action, resolve_image_path, video_html, MdAction,
    MdEventKind, MdState,
};

#[test]
fn image_links_are_resolved() {
    assert_eq!(
        resolve_image_path("screenshot.png", "update-log/1.4.0-test"),
        "/update-log/1.4.0-test/screenshot.png"
    );
    assert_eq!(
        resolve_image_path("/assets/image.png", "update-log/1.4.0-test"),
        "/assets/image.png"
    );
    assert_eq!(
        resolve_image_path("https://example.com/image.png", "update-log/1.4.0-test"),
        "https://example.com/image.png"
    );
}

#[test]
fn videos_are_told_by_extension() {
    assert!(is_video_file("clip.mp4"));
    assert!(is_video_file("CLIP.MOV"));
    assert!(is_video_file("a/b.webm"));
    assert!(!is_video_file("image.png"));
    assert_eq!(get_video_mime_type("x.MKV"), "video/x-matroska");
    assert_eq!(get_video_mime_type("x.mov"), "video/quicktime");
    assert_eq!(get_video_mime_type("x.avi"), "video/x-msvideo");
    assert_eq!(get_video_mime_type("x.ogg"), "video/ogg");
    assert_eq!(get_video_mime_type("x.png"), "video/mp4");
}

#[test]
fn video_element() {
    assert_eq!(
        video_html("/a/b.mp4", "video/mp4"),
        "<video controls autoplay loop muted>\n  <source src=\"/a/b.mp4\" type=\"video/mp4\">\n  Your browser does not support the video tag.\n</video>"
    );
}

#[test]
fn front_matter_text_is_read_and_left_out() {
    let mut state = MdState::new();
    assert!(matches!(
        next_action(&mut state, MdEventKind::YamlMetadataStart, "b"),
        MdAction::Skip
    ));
    assert!(matches!(
        next_action(&mut state, MdEventKind::Text, "b"),
        MdAction::ParseMetadata
    ));
    assert!(matches!(
        next_action(&mut state, MdEventKind::YamlMetadataEnd, "b"),
        MdAction::Skip
    ));
    assert!(matches!(
        next_action(&mut state, MdEventKind::Text, "b"),
        MdAction::Keep
    ));
}

#[test]
fn video_images_become_video_elements() {
    let mut state = MdState::new();
    assert!(matches!(
        next_action(&mut state, MdEventKind::ImageStart("demo.mp4".to_string()), "log/1.0.0"),
        MdAction::Skip
    ));
    assert!(matches!(
        next_action(&mut state, MdEventKind::Text, "log/1.0.0"),
        MdAction::Skip
    ));
    match next_action(&mut state, MdEventKind::ImageEnd, "log/1.0.0") {
        MdAction::EmitHtml(html) => {
            assert!(html.contains("src=\"/log/1.0.0/demo.mp4\""));
            assert!(html.contains("type=\"video/mp4\""));
        }
        _ => panic!("expected a video element"),
    }
    assert!(matches!(
        next_action(&mut state, MdEventKind::ImageEnd, "log/1.0.0"),
        MdAction::Keep
    ));
    match next_action(&mut state, MdEventKind::ImageStart("pic.png".to_string()), "log/1.0.0") {
        MdAction::KeepImageAt(url) => assert_eq!(url, "/log/1.0.0/pic.png"),
        _ => panic!("expected the image to be kept"),
    }
}
