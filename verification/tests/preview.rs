use find_core::dates::human_date;
use find_core::media::MediaInfo;
use find_core::preview::{
    is_markdown, load, needed, read_head, truncate_text, wants_thumbnail, Found, Needed,
    PreviewContent, TEXT_PREVIEW_BYTES,
};
use find_core::search::Hit;
use find_core::thumbnail::Thumbnail;

fn hit(name: &str, size: u64) -> Hit {
    Hit {
        idx: 1,
        score: 0,
        name: name.to_string(),
        path: format!("/x/{name}"),
        is_dir: false,
        size,
        modified: 1_700_000_000,
        content_line: None,
    }
}

fn found() -> Found {
    Found {
        bytes: None,
        media: MediaInfo::default(),
        document: None,
        head: None,
        thumbnail: None,
    }
}

fn info(content: PreviewContent) -> String {
    match content {
        PreviewContent::Info(text) => text,
        _ => panic!("not an info preview"),
    }
}

fn text(content: PreviewContent) -> (String, bool) {
    match content {
        PreviewContent::Text { text, truncated } => (text, truncated),
        _ => panic!("not a text preview"),
    }
}

fn thumb() -> Thumbnail {
    Thumbnail { width: 1, height: 1, rgba: vec![1, 2, 3, 4] }
}

#[test]
fn folders_show_path_and_date() {
    let mut h = hit("dir", 0);
    h.is_dir = true;
    let date = human_date(h.modified);
    assert_eq!(needed(&h), Needed::Nothing);
    assert!(!wants_thumbnail(&h, &found()));
    assert_eq!(info(load(&h, found())), format!("Folder\n\n/x/dir\nModified: {date}"));
}

#[test]
fn images_are_shown_up_to_a_size() {
    let h = hit("a.PNG", 10);
    assert_eq!(needed(&h), Needed::Bytes);
    let f = Found { bytes: Some(vec![1, 2]), ..found() };
    match load(&h, f) {
        PreviewContent::Image { uri, bytes } => {
            assert_eq!(uri, "bytes://preview//x/a.PNG");
            assert_eq!(bytes, vec![1, 2]);
        }
        _ => panic!("not an image"),
    }
    assert!(info(load(&h, found())).ends_with("No preview available for this file type."));
    assert_eq!(needed(&hit("a.png", 30 * 1024 * 1024 + 1)), Needed::Nothing);
}

#[test]
fn media_show_a_frame_or_a_caption() {
    let h = hit("clip.mp4", 2048);
    assert_eq!(needed(&h), Needed::Media);
    assert!(wants_thumbnail(&h, &found()));
    let date = human_date(h.modified);
    let tail = format!(
        "/x/clip.mp4\n2.0 KB • {date}\n\nDouble-click to play in your default player."
    );
    assert_eq!(info(load(&h, found())), tail);
    let media = MediaInfo { duration_secs: Some(61), ..Default::default() };
    let f = Found { media, thumbnail: Some(thumb()), ..found() };
    match load(&h, f) {
        PreviewContent::Thumbnail { uri, width, height, rgba, caption } => {
            assert_eq!(uri, "thumb:///x/clip.mp4");
            assert_eq!((width, height, rgba), (1, 1, vec![1, 2, 3, 4]));
            assert_eq!(caption, format!("1:01\n{tail}"));
        }
        _ => panic!("not a thumbnail"),
    }
}

#[test]
fn documents_show_their_text() {
    let h = hit("a.docx", 10);
    assert_eq!(needed(&h), Needed::Document);
    let f = Found { document: Some("hello".to_string()), ..found() };
    assert_eq!(text(load(&h, f)), ("hello".to_string(), false));
    let f = Found { document: Some("\u{20AC}".repeat(60_000)), ..found() };
    let (shown, cut) = text(load(&h, f));
    assert!(cut);
    assert_eq!(shown.len(), TEXT_PREVIEW_BYTES / 3 * 3);
    assert!(info(load(&h, found())).starts_with("/x/a.docx\n\nSize: 10 B\n"));
    assert_eq!(needed(&hit("a.pdf", 8 * 1024 * 1024 + 1)), Needed::Nothing);
}

#[test]
fn texts_show_their_head() {
    let h = hit("a.rs", 10);
    assert_eq!(needed(&h), Needed::Head);
    let f = Found { head: Some(b"fn main() {}".to_vec()), ..found() };
    assert_eq!(text(load(&h, f)), ("fn main() {}".to_string(), false));
    let f = Found { head: Some(b"a\xFFb".to_vec()), ..found() };
    assert_eq!(text(load(&h, f)), ("a\u{FFFD}b".to_string(), false));
    let f = Found { head: Some(vec![b'x'; TEXT_PREVIEW_BYTES + 1]), ..found() };
    let (shown, cut) = text(load(&h, f));
    assert_eq!((shown.len(), cut), (TEXT_PREVIEW_BYTES, true));
}

#[test]
fn binary_data_is_refused() {
    let h = hit("a.txt", 10);
    let f = Found { head: Some(b"ab\0cd".to_vec()), ..found() };
    assert!(wants_thumbnail(&h, &f));
    assert!(info(load(&h, f)).contains("No preview available"));
    let mut late = vec![b'x'; 4096];
    late.push(0);
    let f = Found { head: Some(late), ..found() };
    assert_eq!(text(load(&h, f)).0.len(), 4097);
}

#[test]
fn markdown_is_marked_as_such() {
    assert!(is_markdown("README.md"));
    assert!(is_markdown("a.MarkDown"));
    assert!(!is_markdown("md"));
    let f = Found { head: Some(b"# hi".to_vec()), ..found() };
    match load(&hit("README.MD", 4), f) {
        PreviewContent::Markdown { text, truncated } => {
            assert_eq!((text.as_str(), truncated), ("# hi", false));
        }
        _ => panic!("not markdown"),
    }
}

#[test]
fn other_files_show_a_thumbnail_as_a_last_resort() {
    let h = hit("a.psd", 5);
    assert!(wants_thumbnail(&h, &found()));
    match load(&h, Found { thumbnail: Some(thumb()), ..found() }) {
        PreviewContent::Thumbnail { caption, .. } => assert!(caption.starts_with("/x/a.psd\n5 B • ")),
        _ => panic!("not a thumbnail"),
    }
    // Not of an empty file.
    let empty = hit("a.psd", 0);
    assert!(!wants_thumbnail(&empty, &found()));
    let shown = load(&empty, Found { thumbnail: Some(thumb()), ..found() });
    assert!(info(shown).contains("Size: 0 B"));
}

#[test]
fn texts_are_cut_between_characters() {
    assert_eq!(truncate_text("a\u{20AC}b".to_string(), 3), ("a".to_string(), true));
    assert_eq!(truncate_text("a\u{20AC}b".to_string(), 4), ("a\u{20AC}".to_string(), true));
    assert_eq!(truncate_text("a\u{20AC}b".to_string(), 5), ("a\u{20AC}b".to_string(), false));
    assert_eq!(truncate_text("\u{1F600}".to_string(), 3), (String::new(), true));
    assert_eq!(read_head(vec![1, 2]), (vec![1, 2], false));
}
