use find_core::query::{parse, MatchMode, SearchSpec, TypeFilter};

#[test]
fn test_plain_terms() {
    let spec = parse("hello world", MatchMode::Substring, false);
    assert_eq!(spec.name_terms, vec!["hello", "world"]);
    assert!(spec.content.is_none());
}

#[test]
fn test_filters() {
    let spec = parse(
        "report ext:pdf,docx path:projects size:>10mb type:file",
        MatchMode::Substring,
        false,
    );
    assert_eq!(spec.name_terms, vec!["report"]);
    assert_eq!(spec.exts, vec!["pdf", "docx"]);
    assert_eq!(spec.path_terms, vec!["projects"]);
    assert_eq!(spec.size_min, Some(10 * 1024 * 1024));
    assert_eq!(spec.type_filter, TypeFilter::File);
}

#[test]
fn test_quoted_content() {
    let spec = parse("content:\"hello world\" ext:rs", MatchMode::Substring, false);
    assert_eq!(spec.content.as_deref(), Some("hello world"));
    assert_eq!(spec.exts, vec!["rs"]);
}

#[test]
fn test_date_range() {
    let spec = parse("date:2024-01-01..2024-12-31", MatchMode::Substring, false);
    assert!(spec.date_min.is_some());
    assert!(spec.date_max.is_some());
    assert!(spec.date_max.unwrap() > spec.date_min.unwrap());
}

#[test]
fn test_size_range() {
    let spec = parse("size:1mb..10mb", MatchMode::Substring, false);
    assert_eq!(spec.size_min, Some(1024 * 1024));
    assert_eq!(spec.size_max, Some(10 * 1024 * 1024));
}

#[test]
fn test_case_preserved_in_terms() {
    let spec = parse("Path:MyDocs README", MatchMode::Substring, false);
    assert_eq!(spec.path_terms, vec!["MyDocs"]);
    assert_eq!(spec.name_terms, vec!["README"]);
}

#[test]
fn prefixes_have_short_forms_and_ignore_case() {
    let spec = parse("E:PDF,.txt in:src S:<2kb T:dir C:todo", MatchMode::Fuzzy, true);
    assert_eq!(spec.exts, vec!["pdf", "txt"]);
    assert_eq!(spec.path_terms, vec!["src"]);
    assert_eq!(spec.size_max, Some(2048));
    assert_eq!(spec.type_filter, TypeFilter::Folder);
    assert_eq!(spec.content.as_deref(), Some("todo"));
    assert_eq!(spec.mode, MatchMode::Fuzzy);
    assert!(spec.case_sensitive);
    assert!(spec.name_terms.is_empty());
}

#[test]
fn bare_sizes_mean_within_a_tenth() {
    let spec = parse("size:100", MatchMode::Substring, false);
    assert_eq!((spec.size_min, spec.size_max), (Some(90), Some(110)));
    let huge = parse("size:99999999tb", MatchMode::Substring, false);
    assert_eq!(huge.size_max, Some(u64::MAX));
}

#[test]
fn unreadable_filters_ask_for_nothing() {
    let spec = parse("size:abc date:abc type:abc path: content: ext:,", MatchMode::Substring, false);
    assert!(spec.is_empty());
    assert!(!spec.needs_path());
    assert!(SearchSpec::default().is_empty());
}

#[test]
fn quotes_hold_words_together() {
    let spec = parse("\"a b\"c \"\" d\"e", MatchMode::Substring, false);
    assert_eq!(spec.name_terms, vec!["a bc", "de"]);
}

#[test]
fn days_count_whole() {
    let one = parse("date:2024-05-06", MatchMode::Substring, false);
    assert_eq!(one.date_max.unwrap() - one.date_min.unwrap(), 86_400);
    let months = parse("date:2024-01..2024-06", MatchMode::Substring, false);
    assert!(months.date_max.unwrap() > months.date_min.unwrap() + 151 * 86_400);
    let after = parse("date:>2024-05-06", MatchMode::Substring, false);
    assert_eq!(after.date_min, one.date_min);
    assert_eq!(after.date_max, None);
    let until = parse("date:<=2024-05-06", MatchMode::Substring, false);
    assert_eq!(until.date_max, one.date_min);
    assert!(until.needs_path() == false && !until.is_empty());
}

#[test]
fn the_last_of_two_filters_counts() {
    let spec = parse("type:file type:folder content:a content:b", MatchMode::Substring, false);
    assert_eq!(spec.type_filter, TypeFilter::Folder);
    assert_eq!(spec.content.as_deref(), Some("b"));
}

#[test]
fn modes_have_labels() {
    assert_eq!(MatchMode::Substring.label(), "Substring");
    assert_eq!(MatchMode::Fuzzy.label(), "Fuzzy");
    assert_eq!(MatchMode::Regex.label(), "Regex");
    assert_eq!(MatchMode::default(), MatchMode::Substring);
}

#[test]
fn joined_queries_ask_for_both() {
    let a = "report ext:pdf path:x content:\"a b\" type:file size:>1k";
    let b = "2024 ext:txt path:y content:c";
    let both = parse(&format!("{a} {b}"), MatchMode::Regex, true);
    assert_eq!(both.name_terms, vec!["report", "2024"]);
    assert_eq!(both.exts, vec!["pdf", "txt"]);
    assert_eq!(both.path_terms, vec!["x", "y"]);
    assert_eq!(both.content.as_deref(), Some("c"));
    assert_eq!(both.type_filter, TypeFilter::File);
    assert_eq!(both.size_min, Some(1024));
    assert_eq!((both.mode, both.case_sensitive), (MatchMode::Regex, true));
    // The first alone decides where the second says nothing.
    let both = parse(&format!("{a} z"), MatchMode::Substring, false);
    assert_eq!(both.content.as_deref(), Some("a b"));
    // An open quotation takes the space in.
    let open = parse("a\"b c", MatchMode::Substring, false);
    assert_eq!(open.name_terms, vec!["ab c"]);
}

#[test]
fn path_terms_can_be_respelled() {
    let mut spec = parse("x path:a\\b path:c/d", MatchMode::Substring, false);
    spec.respell_paths();
    assert_eq!(spec.path_terms, vec!["a/b", "c\\d"]);
    assert_eq!(spec.name_terms, vec!["x"]);
}
