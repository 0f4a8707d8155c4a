use find_core::content::{search_text, MAX_GREP_FILES};
use find_core::index::{Index, NO_PARENT};
use find_core::query::{parse, MatchMode};
use find_core::search::{Hit, SearchOutcome};
use find_core::util::Category;
use find_core::worker::{answer, begin, content_query, newest_request, to_run, SearchRequest};
use std::sync::atomic::AtomicU64;

fn request(query: &str, max_results: usize) -> SearchRequest {
    SearchRequest {
        generation: 4,
        query: query.to_string(),
        mode: MatchMode::Substring,
        case_sensitive: false,
        category: Category::All,
        max_results,
        backslashes: false,
    }
}

fn index() -> Index {
    let mut index = Index::default();
    let root = index.push_entry_pub("/r", NO_PARENT, 0, 0, true);
    for name in ["dog.txt", "dog run.txt", "cat.txt"] {
        index.push_entry_pub(name, root, 1, 1, false);
    }
    index
}

fn hits(n: u32) -> Vec<Hit> {
    (0..n)
        .map(|idx| Hit {
            idx,
            score: 0,
            name: String::new(),
            path: String::new(),
            is_dir: false,
            size: 0,
            modified: 0,
            content_line: None,
        })
        .collect()
}

#[test]
fn only_the_newest_request_runs() {
    assert!(newest_request(vec![]).is_none());
    let r = newest_request(vec![request("a", 1), request("b", 1)]).unwrap();
    assert_eq!(r.query, "b");
}

#[test]
fn searches_by_name_are_capped() {
    let gen = AtomicU64::new(4);
    let b = begin(&index(), &request("dog", 1), &gen).unwrap();
    assert_eq!((b.outcome.hits.len(), b.outcome.total), (1, 2));
    assert_eq!(b.outcome.hits[0].name, "dog.txt");
    assert!(b.content.is_none());
    assert!(begin(&index(), &request("dog", 1), &AtomicU64::new(5)).is_none());
}

#[test]
fn content_searches_gather_widely() {
    let gen = AtomicU64::new(4);
    let b = begin(&index(), &request("dog content:x", 1), &gen).unwrap();
    assert_eq!(b.outcome.hits.len(), 2);
    assert_eq!(b.content.as_deref(), Some("x"));
}

#[test]
fn overlong_fuzzy_queries_are_not_run() {
    let gen = AtomicU64::new(4);
    let mut r = request(&"a".repeat(3_000), 1);
    r.mode = MatchMode::Fuzzy;
    assert!(begin(&index(), &r, &gen).is_some());
    let mut long = index();
    long.push_entry_pub(&"a".repeat(3_000), NO_PARENT, 0, 0, false);
    assert!(begin(&long, &r, &gen).is_none());
}

#[test]
fn bad_expressions_and_empty_requests_are_always_answered() {
    let superseded = AtomicU64::new(5);
    let mut r = request("(", 10);
    r.mode = MatchMode::Regex;
    let b = begin(&index(), &r, &superseded).unwrap();
    assert_eq!((b.outcome.total, b.outcome.truncated), (0, false));
    let b = begin(&index(), &request("  ", 2), &superseded).unwrap();
    assert_eq!((b.outcome.total, b.outcome.hits.len(), b.outcome.truncated), (4, 2, true));
    assert!(begin(&index(), &request("dog", 10), &superseded).is_none());
}

#[test]
fn a_content_search_gathers_a_wide_set() {
    let read = |query: &str| parse(query, MatchMode::Substring, false);
    let (spec, cap) = to_run(read("x path:a/b"), 7, false);
    assert_eq!((spec.path_terms, cap), (vec!["a/b".to_string()], 7));
    let (spec, cap) = to_run(read("x path:a\\b content:y"), 7, true);
    assert_eq!((spec.path_terms, cap), (vec!["a/b".to_string()], MAX_GREP_FILES));
    assert_eq!(spec.content.as_deref(), Some("y"));
}

#[test]
fn content_is_an_expression_in_regex_mode_only() {
    let mut r = request("content:a.c", 10);
    let plain = content_query(&r, "a.c").unwrap();
    assert!(search_text(&plain, "abc").is_none());
    assert_eq!(search_text(&plain, "x\nA.C"), Some((2, "A.C".to_string())));
    assert!(content_query(&r, "(").is_some());
    r.mode = MatchMode::Regex;
    r.case_sensitive = true;
    let regex = content_query(&r, "a.c").unwrap();
    assert_eq!(search_text(&regex, "abc"), Some((1, "abc".to_string())));
    assert!(search_text(&regex, "ABC").is_none());
    assert!(content_query(&r, "(").is_none());
}

#[test]
fn answers_are_cut_to_what_was_asked_for() {
    let outcome = || SearchOutcome { hits: hits(3), total: 9, truncated: true };
    let a = answer(&request("x", 2), outcome(), None, 5);
    assert_eq!((a.generation, a.hits.len(), a.total, a.truncated), (4, 3, 9, true));
    assert_eq!(a.elapsed_ms, 5);
    let a = answer(&request("x", 2), outcome(), Some(hits(3)), 5);
    assert_eq!((a.hits.len(), a.total, a.truncated), (2, 3, true));
    let a = answer(&request("x", 3), outcome(), Some(hits(3)), 5);
    assert_eq!((a.hits.len(), a.total, a.truncated), (3, 3, false));
}

#[test]
fn typed_backslashes_separate_components_where_the_platform_says_so() {
    let gen = AtomicU64::new(4);
    let total = |query: &str, backslashes: bool| {
        let mut r = request(query, 10);
        r.backslashes = backslashes;
        begin(&index(), &r, &gen).unwrap().outcome.total
    };
    assert_eq!(total("path:r/dog", false), 2);
    assert_eq!(total("path:r\\dog", false), 0);
    assert_eq!(total("path:r\\dog", true), 2);
    assert_eq!(total("path:r/dog", true), 0);
    assert_eq!(total("dog", true), 2);
}
