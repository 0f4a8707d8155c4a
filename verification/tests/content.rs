use find_core::content::{
    access, filter_by_content, keep_matching, matching_hits, search_file, search_text, Access,
    ContentQuery, FileData,
};
use find_core::search::Hit;
use std::io::Write;
use std::sync::atomic::AtomicU64;

fn hit_for(path: &str, size: u64) -> Hit {
    Hit {
        idx: 0,
        score: 0,
        name: path.rsplit('/').next().unwrap().to_string(),
        path: path.to_string(),
        is_dir: false,
        size,
        modified: 0,
        content_line: None,
    }
}

fn text_file(path: &str, text: &str) -> (Hit, FileData) {
    (
        hit_for(path, text.len() as u64),
        FileData { bytes: Some(text.as_bytes().to_vec()), pdf_text: None },
    )
}

#[test]
fn test_content_filter() {
    let a = (
        hit_for("/tmp/find_grep_test/a.txt", 30),
        FileData { bytes: Some(b"hello world\nTODO: fix this\n".to_vec()), pdf_text: None },
    );
    let b = (
        hit_for("/tmp/find_grep_test/b.txt", 15),
        FileData { bytes: Some(b"nothing here\n".to_vec()), pdf_text: None },
    );
    let gen = AtomicU64::new(1);
    let out = filter_by_content(vec![a, b], "todo", false, false, 1, &gen).unwrap();
    assert_eq!(out.len(), 1);
    assert_eq!(out[0].name, "a.txt");
    let (line_num, line) = out[0].content_line.clone().unwrap();
    assert_eq!(line_num, 2);
    assert!(line.contains("TODO"));
}

fn docx() -> Vec<u8> {
    let mut zip = zip::ZipWriter::new(std::io::Cursor::new(Vec::new()));
    zip.start_file("word/document.xml", zip::write::SimpleFileOptions::default()).unwrap();
    zip.write_all(
        br#"<w:document><w:p><w:r><w:t>The secret launch date is Friday.</w:t></w:r></w:p></w:document>"#,
    )
    .unwrap();
    zip.finish().unwrap().into_inner()
}

#[test]
fn test_content_filter_inside_docx() {
    let candidate = || {
        let bytes = docx();
        (
            hit_for("/tmp/find_grepdoc_test/memo.docx", bytes.len() as u64),
            FileData { bytes: Some(bytes), pdf_text: None },
        )
    };
    let gen = AtomicU64::new(2);
    let out =
        filter_by_content(vec![candidate()], "launch date", false, false, 2, &gen).unwrap();
    assert_eq!(out.len(), 1);
    let (_, line) = out[0].content_line.clone().unwrap();
    assert!(line.contains("secret launch date"));

    // A term that isn't present finds nothing.
    let out =
        filter_by_content(vec![candidate()], "absent-term", false, false, 2, &gen).unwrap();
    assert!(out.is_empty());
}

#[test]
fn literals_are_taken_literally() {
    let gen = AtomicU64::new(1);
    let files = || vec![text_file("/x/a.txt", "axb\n"), text_file("/x/b.txt", "a.b\n")];
    let out = filter_by_content(files(), "a.b", false, true, 1, &gen).unwrap();
    assert_eq!(out.len(), 1);
    assert_eq!(out[0].name, "b.txt");
    let out = filter_by_content(files(), "a.b", true, true, 1, &gen).unwrap();
    assert_eq!(out.len(), 2);
}

#[test]
fn bad_patterns_and_superseded_searches_return_nothing() {
    let gen = AtomicU64::new(1);
    assert!(filter_by_content(vec![], "(", true, false, 1, &gen).is_none());
    assert!(filter_by_content(vec![], "(", false, false, 1, &gen).is_some());
    assert!(filter_by_content(vec![], "x", false, false, 2, &gen).is_none());
    let q = ContentQuery::compile("x", false, false).unwrap();
    assert!(keep_matching(&q, vec![], 1, &gen).is_some());
    assert!(keep_matching(&q, vec![], 2, &gen).is_none());
}

#[test]
fn binary_files_folders_and_large_files_are_skipped() {
    let q = ContentQuery::compile("todo", false, false).unwrap();
    let (hit, file) = text_file("/x/a.bin", "\0\0todo\n");
    assert_eq!(search_file(&q, &hit, &file), None);
    let (mut hit, file) = text_file("/x/a.txt", "todo\n");
    assert_eq!(search_file(&q, &hit, &file), Some((1, "todo".to_string())));
    hit.size = 16 * 1024 * 1024 + 1;
    assert_eq!(search_file(&q, &hit, &file), None);
    hit.size = 5;
    hit.is_dir = true;
    assert_eq!(search_file(&q, &hit, &file), None);
    hit.is_dir = false;
    let gone = FileData { bytes: None, pdf_text: None };
    assert_eq!(search_file(&q, &hit, &gone), None);
}

#[test]
fn shown_lines_are_trimmed_and_cut() {
    let q = ContentQuery::compile("todo", false, false).unwrap();
    let (hit, file) = text_file("/x/a.txt", &format!("  todo {}  \n", "y".repeat(400)));
    let (_, line) = search_file(&q, &hit, &file).unwrap();
    assert_eq!(line.chars().count(), 300);
    assert!(line.starts_with("  todo y"));
    // Lines of documents lose the space in front too.
    assert_eq!(search_text(&q, "first\n  a TODO  \n"), Some((2, "a TODO".to_string())));
    assert_eq!(search_text(&q, "none"), None);
}

#[test]
fn pdf_text_is_searched_as_a_document() {
    let q = ContentQuery::compile("needle", false, false).unwrap();
    let hit = hit_for("/x/paper.pdf", 10);
    let file = FileData { bytes: None, pdf_text: Some("one\nthe needle\n".to_string()) };
    assert_eq!(search_file(&q, &hit, &file), Some((2, "the needle".to_string())));
}

#[test]
fn what_has_to_be_read_depends_on_the_kind() {
    assert_eq!(access(&hit_for("/x/paper.pdf", 10)), Access::PdfText);
    assert_eq!(access(&hit_for("/x/memo.docx", 10)), Access::Bytes);
    assert_eq!(access(&hit_for("/x/a.txt", 10)), Access::Bytes);
    assert_eq!(access(&hit_for("/x/a.txt", 16 * 1024 * 1024 + 1)), Access::Skip);
    let mut dir = hit_for("/x", 0);
    dir.is_dir = true;
    assert_eq!(access(&dir), Access::Skip);
}

#[test]
fn matching_hits_keep_their_order() {
    let q = ContentQuery::compile("k", false, false).unwrap();
    let files = vec![
        text_file("/x/1.txt", "k"),
        text_file("/x/2.txt", "n"),
        text_file("/x/3.txt", "ok"),
    ];
    let names: Vec<String> = matching_hits(&q, files).into_iter().map(|h| h.name).collect();
    assert_eq!(names, vec!["1.txt", "3.txt"]);
}
