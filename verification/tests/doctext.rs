use find_core::doctext::{document_format, extract_text, is_document, strip_xml_into, DocFormat};
use std::io::Write;

fn make_zip(members: &[(&str, &str)]) -> Vec<u8> {
    let mut zip = zip::ZipWriter::new(std::io::Cursor::new(Vec::new()));
    let options = zip::write::SimpleFileOptions::default();
    for (name, content) in members {
        zip.start_file(*name, options).unwrap();
        zip.write_all(content.as_bytes()).unwrap();
    }
    zip.finish().unwrap().into_inner()
}

#[test]
fn test_docx_extraction() {
    let docx = make_zip(&[(
        "word/document.xml",
        r#"<w:document><w:body><w:p><w:r><w:t>Quarterly Report</w:t></w:r></w:p><w:p><w:r><w:t>Revenue &amp; growth were strong.</w:t></w:r></w:p></w:body></w:document>"#,
    )]);
    let text = extract_text("find_doc_test/report.docx", &docx, None).unwrap();
    assert!(text.contains("Quarterly Report"));
    assert!(text.contains("Revenue & growth"));
    // Paragraphs became separate lines.
    assert!(text.lines().count() >= 2);
}

#[test]
fn test_pptx_extraction() {
    let pptx = make_zip(&[
        (
            "ppt/slides/slide2.xml",
            r#"<p:sld><a:p><a:r><a:t>Second slide</a:t></a:r></a:p></p:sld>"#,
        ),
        (
            "ppt/slides/slide1.xml",
            r#"<p:sld><a:p><a:r><a:t>Title slide</a:t></a:r></a:p></p:sld>"#,
        ),
    ]);
    let text = extract_text("find_ppt_test/deck.pptx", &pptx, None).unwrap();
    let title_pos = text.find("Title slide").unwrap();
    let second_pos = text.find("Second slide").unwrap();
    assert!(title_pos < second_pos, "slides out of order: {text}");
}

#[test]
fn test_xlsx_extraction() {
    let xlsx = make_zip(&[(
        "xl/sharedStrings.xml",
        r#"<sst><si><t>Customer Name</t></si><si><t>Total Owed</t></si></sst>"#,
    )]);
    let text = extract_text("find_xls_test/data.xlsx", &xlsx, None).unwrap();
    assert!(text.contains("Customer Name"));
    assert!(text.contains("Total Owed"));
}

#[test]
fn test_is_document() {
    assert!(is_document("report.PDF"));
    assert!(is_document("deck.pptx"));
    assert!(!is_document("notes.txt"));
    assert!(!is_document("archive.zip"));
}

fn stripped(xml: &str, para: &str) -> String {
    let xml: Vec<char> = xml.chars().collect();
    let para: Vec<char> = para.chars().collect();
    let mut out = Vec::new();
    strip_xml_into(&xml, &para, &mut out);
    out.into_iter().collect()
}

#[test]
fn markup_goes_and_entities_are_decoded() {
    assert_eq!(stripped("<p>a &lt;b&gt; &quot;c&quot; &apos;d&apos;</p>", "</p>"), "a <b> \"c\" 'd'\n");
    assert_eq!(stripped("&amp;lt;", "</p>"), "&lt;\n");
    assert_eq!(stripped("  x </p></p> y\r\n\tz", "</p>"), "x\ny\nz\n");
    assert_eq!(stripped("a<b", "</p>"), "a\n");
    assert_eq!(stripped("", "</p>"), "");
}

#[test]
fn entities_are_decoded_once() {
    assert_eq!(stripped("<t>&amp;lt;b&amp;gt;</t>", "</p>"), "&lt;b&gt;\n");
    assert_eq!(stripped("&amp;amp;", "</p>"), "&amp;\n");
    assert_eq!(stripped("&lt;&gt;&quot;&apos;&amp;", "</p>"), "<>\"'&\n");
}

#[test]
fn slides_are_ordered_by_number() {
    let slide = |n: u32| format!("<a:t>number {n}</a:t>");
    let (one, two, ten) = (slide(1), slide(2), slide(10));
    let pptx = make_zip(&[
        ("ppt/slides/slide10.xml", ten.as_str()),
        ("ppt/slides/_rels/slide1.xml.rels", "<x>no</x>"),
        ("ppt/slides/slide2.xml", two.as_str()),
        ("ppt/slides/slide1.xml", one.as_str()),
        ("ppt/slides/slideX.xml", "<x>last</x>"),
    ]);
    let text = extract_text("deck.pptx", &pptx, None).unwrap();
    let lines: Vec<&str> = text.lines().filter(|l| !l.is_empty()).collect();
    assert_eq!(lines, vec!["number 1", "number 2", "number 10", "last"]);
}

#[test]
fn open_documents_are_read() {
    let odt = make_zip(&[("content.xml", "<text:p>Hello</text:p><text:p>World</text:p>")]);
    assert_eq!(extract_text("a.odt", &odt, None).as_deref(), Some("Hello\nWorld"));
    assert_eq!(extract_text("a.ODS", &odt, None).as_deref(), Some("Hello\nWorld"));
}

#[test]
fn what_cannot_be_read_gives_nothing() {
    assert_eq!(extract_text("a.docx", b"not a zip", None), None);
    let empty = make_zip(&[("word/document.xml", "<w:p></w:p>")]);
    assert_eq!(extract_text("a.docx", &empty, None), None);
    let other = make_zip(&[("other.xml", "x")]);
    assert_eq!(extract_text("a.docx", &other, None), None);
    assert_eq!(extract_text("a.txt", b"plain", None), None);
    assert_eq!(extract_text("noext", b"plain", None), None);
    assert_eq!(extract_text("a.pdf", b"", None), None);
    assert_eq!(extract_text("a.pdf", b"", Some("text".into())).as_deref(), Some("text"));
}

#[test]
fn formats_go_by_extension() {
    assert_eq!(document_format("/x/a.PDF"), Some(DocFormat::Pdf));
    assert_eq!(document_format("/x.d/a"), None);
    assert_eq!(document_format("/x/a.txt"), None);
}
