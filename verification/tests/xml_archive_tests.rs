use pptx_compressor::archive::{
    contains_nul, entry_name, fallback_entry_name, is_compressed_format, is_enclosed,
    is_thumbnail_name, resolve_entry_path, sort_by_size_desc, to_forward_slashes, PathPart,
};
use pptx_compressor::media::{MediaInfo, MediaType};
use pptx_compressor::xml_clean::{cleaned_xml, is_xml_part, strip_comments};

#[test]
fn strip_comments_removes_comments() {
    assert_eq!(strip_comments("<a><!-- note --><b/></a>"), "<a><b/></a>");
    assert_eq!(strip_comments("x<!--1-->y<!--2-->z"), "xyz");
    assert_eq!(strip_comments("<!---->"), "");
}

#[test]
fn strip_comments_keeps_text_without_comments() {
    let s = "  <a:t> keep  spaces </a:t>\n";
    assert_eq!(strip_comments(s), s);
    assert_eq!(strip_comments(""), "");
    assert_eq!(strip_comments("<!-"), "<!-");
}

#[test]
fn strip_comments_unterminated_comment_drops_the_rest() {
    assert_eq!(strip_comments("a<!--xyz"), "a");
    assert_eq!(strip_comments("<a/><!-- never closed"), "<a/>");
    assert_eq!(strip_comments("x<!--1-->y<!--2"), "xy");
    assert_eq!(strip_comments("a<!--"), "a");
}

#[test]
fn strip_comments_is_never_longer() {
    for s in ["<!-- a -->b", "abc", "a<!--b", "<!--x-->-->", "日本<!--語-->"] {
        assert!(strip_comments(s).chars().count() <= s.chars().count());
    }
}

#[test]
fn cleaned_xml_only_when_shorter() {
    assert_eq!(cleaned_xml("<a/><!--c-->"), Some("<a/>".to_string()));
    assert_eq!(cleaned_xml("<a/>"), None);
    assert!(is_xml_part("xml"));
    assert!(is_xml_part("RELS"));
    assert!(!is_xml_part("xmlx"));
}

#[test]
fn compressed_formats() {
    for e in ["jpg", "JPEG", "png", "gif", "mp4", "wmv", "mov", "webm", "m4v", "mp3", "wav", "ogg", "zip"] {
        assert!(is_compressed_format(e), "{}", e);
    }
    for e in ["xml", "rels", "emf", "", "avi"] {
        assert!(!is_compressed_format(e), "{}", e);
    }
}

#[test]
fn thumbnails() {
    assert!(is_thumbnail_name("thumbnail.jpeg"));
    assert!(is_thumbnail_name("Thumbnail.emf"));
    assert!(!is_thumbnail_name("thumb.jpeg"));
    assert!(!is_thumbnail_name("app.xml"));
}

#[test]
fn enclosed_paths() {
    assert!(is_enclosed(&vec![PathPart::Normal, PathPart::Normal]));
    assert!(is_enclosed(&vec![PathPart::Normal, PathPart::ParentDir, PathPart::Normal]));
    assert!(is_enclosed(&vec![PathPart::CurDir]));
    assert!(is_enclosed(&vec![]));
    assert!(!is_enclosed(&vec![PathPart::ParentDir, PathPart::Normal]));
    assert!(!is_enclosed(&vec![PathPart::Normal, PathPart::ParentDir, PathPart::ParentDir]));
    assert!(!is_enclosed(&vec![PathPart::RootDir, PathPart::Normal]));
    assert!(!is_enclosed(&vec![PathPart::Prefix, PathPart::Normal]));
}

#[test]
fn entry_name_prefers_utf8_bytes() {
    let raw = "ppt/media/图片1.png".as_bytes();
    assert_eq!(entry_name(raw, "garbled"), "ppt/media/图片1.png");
    assert_eq!(entry_name(&[0x66, 0xff, 0x67], "f\u{a0}g"), "f\u{a0}g");
}

#[test]
fn nul_and_fallback_names() {
    assert!(contains_nul("a\0b"));
    assert!(!contains_nul("ab"));
    assert_eq!(fallback_entry_name("//ppt/slide1.xml"), Some("ppt/slide1.xml".to_string()));
    assert_eq!(fallback_entry_name("ppt/../x"), None);
    assert_eq!(fallback_entry_name("a\0"), None);
    assert_eq!(fallback_entry_name("C:/x"), None);
    assert_eq!(fallback_entry_name("\\x"), None);
    assert_eq!(fallback_entry_name("/\\x"), None);
    assert_eq!(fallback_entry_name("ppt/x:y.xml"), Some("ppt/x:y.xml".to_string()));
}

#[test]
fn forward_slashes() {
    assert_eq!(to_forward_slashes("ppt\\media\\a.png"), "ppt/media/a.png");
    assert!(!to_forward_slashes("a\\b\\\\c").contains('\\'));
}

#[test]
fn media_sorted_by_size_descending() {
    let sizes = [10u64, 300, 20, 300, 5];
    let media: Vec<MediaInfo> = sizes
        .iter()
        .enumerate()
        .map(|(i, s)| MediaInfo::new(format!("m{}", i), String::new(), MediaType::Png, *s))
        .collect();
    let sorted = sort_by_size_desc(media);
    let got: Vec<u64> = sorted.iter().map(|m| m.original_size).collect();
    assert_eq!(got, vec![300, 300, 20, 10, 5]);
    let names: Vec<&str> = sorted.iter().map(|m| m.relative_path.as_str()).collect();
    assert_eq!(names.len(), 5);
    assert!(names.contains(&"m1") && names.contains(&"m3"));
}

#[test]
fn resolving_entry_paths() {
    let ok = vec![PathPart::Normal, PathPart::Normal];
    assert_eq!(resolve_entry_path("ppt/a.xml", &ok), Some("ppt/a.xml".to_string()));
    assert_eq!(resolve_entry_path("ppt/a\0.xml", &ok), None);
    let up = vec![PathPart::ParentDir, PathPart::Normal];
    assert_eq!(resolve_entry_path("../a.xml", &up), None);
}
