use find_core::index::Index;
use find_core::query::{parse, MatchMode};
use find_core::scan::{scan, RootWalk, WalkEntry};
use find_core::search::{
    execute, is_stale, keeps_limits, match_block, prepare, rank, substring_score, top_ranked,
    unless_stale, SearchOutcome,
};
use find_core::util::Category;
use nucleo_matcher::pattern::{CaseMatching, Normalization, Pattern};
use nucleo_matcher::{Config, Matcher, Utf32Str};
use std::sync::atomic::AtomicU64;

fn entry(path: &str, depth: usize, is_dir: bool, size: u64) -> WalkEntry {
    let (parent, name) = path.rsplit_once('/').unwrap();
    WalkEntry {
        path: path.to_string(),
        parent_path: parent.to_string(),
        name: if depth == 0 { path.to_string() } else { name.to_string() },
        depth,
        is_dir,
        stat: Some((size, 1_700_000_000)),
    }
}

fn index_of(root: &str, below: Vec<WalkEntry>) -> Index {
    let mut entries = vec![entry(root, 0, true, 0)];
    entries.extend(below);
    scan(&[root.to_string()], &[RootWalk { entries, finished: true }], 1, 2, false)
}

fn test_index() -> Index {
    let tmp = "/tmp/find_search_test";
    index_of(
        tmp,
        vec![
            entry("/tmp/find_search_test/docs", 1, true, 0),
            entry("/tmp/find_search_test/report_2024.pdf", 1, false, 100),
            entry("/tmp/find_search_test/notes.txt", 1, false, 5),
            entry("/tmp/find_search_test/docs/summary_report.txt", 2, false, 1),
        ],
    )
}

fn files(root: &str, names: &[String]) -> Index {
    index_of(root, names.iter().map(|n| entry(&format!("{root}/{n}"), 1, false, 1)).collect())
}

fn run_in(index: &Index, query: &str, mode: MatchMode, category: Category) -> SearchOutcome {
    let spec = parse(query, mode, false);
    let gen = AtomicU64::new(7);
    assert!(keeps_limits(index, &spec));
    execute(index, &spec, category, 100, 7, &gen).unwrap()
}

fn run(index: &Index, query: &str, mode: MatchMode) -> SearchOutcome {
    run_in(index, query, mode, Category::All)
}

fn names(out: &SearchOutcome) -> Vec<&str> {
    out.hits.iter().map(|h| h.name.as_str()).collect()
}

#[test]
fn test_substring_search() {
    let index = test_index();
    let out = run(&index, "report", MatchMode::Substring);
    assert_eq!(out.total, 2);
    assert!(out.hits.iter().any(|h| h.name == "report_2024.pdf"));
    assert!(out.hits.iter().any(|h| h.name == "summary_report.txt"));

    let out = run(&index, "report ext:pdf", MatchMode::Substring);
    assert_eq!(out.total, 1);
    assert_eq!(out.hits[0].name, "report_2024.pdf");

    let out = run(&index, "report path:docs", MatchMode::Substring);
    assert_eq!(out.total, 1);
    assert_eq!(out.hits[0].name, "summary_report.txt");
}

#[test]
fn test_fuzzy_and_regex() {
    let index = test_index();
    let out = run(&index, "rpt2024", MatchMode::Fuzzy);
    assert!(out.hits.iter().any(|h| h.name == "report_2024.pdf"));

    let out = run(&index, r"^notes\.(txt|md)$", MatchMode::Regex);
    assert_eq!(out.total, 1);
    assert_eq!(out.hits[0].name, "notes.txt");
}

#[test]
fn test_top_results_correct_when_truncated() {
    // The partial-sort path must still return the best-ranked hits, in order,
    // when there are more matches than asked for.
    let mut list = vec!["dog.txt".to_string(), "dog run.txt".to_string()];
    for i in 0..30 {
        list.push(format!("a_hotdog_{i}.txt"));
    }
    let index = files("/tmp/find_trunc_test", &list);

    let spec = parse("dog", MatchMode::Substring, false);
    let gen = AtomicU64::new(3);
    let out = execute(&index, &spec, Category::All, 2, 3, &gen).unwrap();
    assert_eq!(out.hits.len(), 2);
    assert!(out.truncated);
    assert_eq!(out.total, 32);
    assert_eq!(out.hits[0].name, "dog.txt");
    assert_eq!(out.hits[1].name, "dog run.txt");
}

#[test]
fn test_relevance_ranking() {
    let list: Vec<String> = [
        "dog.png",
        "dog park.jpg",
        "my dog photos.png",
        "dogecoin_whitepaper.pdf",
        "hotdog_recipes.txt",
    ]
    .iter()
    .map(|s| s.to_string())
    .collect();
    let index = files("/tmp/find_rank_test", &list);
    let out = run(&index, "dog", MatchMode::Substring);
    let names = names(&out);
    assert_eq!(names[0], "dog.png", "exact stem must rank first: {names:?}");
    assert_eq!(names[1], "dog park.jpg", "word-at-start second: {names:?}");
    let buried = names.iter().position(|n| *n == "hotdog_recipes.txt").unwrap();
    let word = names.iter().position(|n| *n == "my dog photos.png").unwrap();
    assert!(word < buried, "word match must beat buried substring: {names:?}");
}

#[test]
fn test_type_filter() {
    let index = test_index();
    let out = run(&index, "docs type:folder", MatchMode::Substring);
    assert!(out.hits.iter().all(|h| h.is_dir));
    assert!(out.hits.iter().any(|h| h.name == "docs"));
}

#[test]
fn scores_follow_the_table() {
    let score = |name: &str| {
        substring_score(name, &parse("dog", MatchMode::Substring, false)).unwrap()
    };
    assert_eq!(score("dog"), 5000 + 197);
    assert_eq!(score("dog.png"), 4000 + 193);
    assert_eq!(score("dog park.jpg"), 1500 + 188);
    assert_eq!(score("my dog photos.png"), 700 + 183);
    assert_eq!(score("dogecoin.pdf"), 400 + 188);
    assert_eq!(score("hotdog_recipes.txt"), 100 + 182);
    let spec = parse("dog cat", MatchMode::Substring, false);
    assert_eq!(substring_score("dog", &spec), None);
    assert_eq!(substring_score("cat dog", &spec), Some(1500 + 700 + 193));
    assert_eq!(substring_score("x", &parse("", MatchMode::Substring, false)), Some(1));
    let long = "dog".to_string() + &"x".repeat(300);
    assert_eq!(substring_score(&long, &parse("dog", MatchMode::Substring, false)), Some(400));
}

#[test]
fn case_counts_when_asked_for() {
    let index = test_index();
    let gen = AtomicU64::new(1);
    let found = |query: &str, case: bool| {
        let spec = parse(query, MatchMode::Substring, case);
        execute(&index, &spec, Category::All, 100, 1, &gen).unwrap().total
    };
    assert_eq!(found("REPORT", false), 2);
    assert_eq!(found("REPORT", true), 0);
    assert_eq!(found("txt path:DOCS", false), 1);
    assert_eq!(found("txt path:DOCS", true), 0);
    let out = |case: bool| {
        let spec = parse("^NOTES", MatchMode::Regex, case);
        execute(&index, &spec, Category::All, 100, 1, &gen).unwrap().total
    };
    assert_eq!(out(false), 1);
    assert_eq!(out(true), 0);
}

#[test]
fn an_empty_query_shows_the_index_in_natural_order() {
    let index = test_index();
    let spec = parse("", MatchMode::Substring, false);
    let gen = AtomicU64::new(1);
    let out = execute(&index, &spec, Category::All, 2, 1, &gen).unwrap();
    assert_eq!(names(&out), vec!["/tmp/find_search_test", "docs"]);
    assert_eq!(out.total, 5);
    assert!(out.truncated);
}

#[test]
fn a_superseded_search_returns_nothing() {
    let index = test_index();
    let spec = parse("report", MatchMode::Substring, false);
    let gen = AtomicU64::new(2);
    assert!(execute(&index, &spec, Category::All, 100, 1, &gen).is_none());
    // One that has nothing to look for is not interrupted.
    let blank = parse("", MatchMode::Substring, false);
    assert!(execute(&index, &blank, Category::All, 100, 1, &gen).is_some());
}

#[test]
fn a_bad_regex_finds_nothing() {
    let index = test_index();
    let out = run(&index, "(", MatchMode::Regex);
    assert_eq!(out.total, 0);
    assert!(!out.truncated);
    assert!(prepare(&parse("(", MatchMode::Regex, false)).is_none());
}

#[test]
fn regex_hits_rank_by_length() {
    let list: Vec<String> = ["aaaa", "aa", "aaa"].iter().map(|s| s.to_string()).collect();
    let index = files("/tmp/r", &list);
    let out = run(&index, "^a+$", MatchMode::Regex);
    assert_eq!(names(&out), vec!["aa", "aaa", "aaaa"]);
    assert_eq!(out.hits[0].score, 998);
}

#[test]
fn filters_on_size_date_and_category() {
    let index = test_index();
    assert_eq!(names(&run(&index, "size:>50", MatchMode::Substring)), vec!["report_2024.pdf"]);
    assert_eq!(run(&index, "size:<50", MatchMode::Substring).total, 2);
    assert_eq!(run(&index, "date:>2020-01-01", MatchMode::Substring).total, 5);
    assert_eq!(run(&index, "date:<2020-01-01", MatchMode::Substring).total, 0);
    let out = run_in(&index, "", MatchMode::Substring, Category::Documents);
    assert_eq!(out.total, 3);
    let out = run_in(&index, "", MatchMode::Substring, Category::Folders);
    assert_eq!(out.total, 2);
}

#[test]
fn deleted_entries_are_not_found() {
    let mut index = test_index();
    index.remove_path("/tmp/find_search_test/docs");
    let out = run(&index, "report", MatchMode::Substring);
    assert_eq!(names(&out), vec!["report_2024.pdf"]);
}

#[test]
fn paths_of_hits_are_full_paths() {
    let index = test_index();
    let out = run(&index, "summary", MatchMode::Substring);
    assert_eq!(out.hits[0].path, "/tmp/find_search_test/docs/summary_report.txt");
    assert_eq!(out.hits[0].size, 1);
    assert!(out.hits[0].content_line.is_none());
}

#[test]
fn the_best_come_first_and_ties_keep_index_order() {
    let scored = [(0, 5), (1, 9), (2, 5), (3, 1)];
    assert_eq!(top_ranked(&scored, 10), vec![(1, 9), (0, 5), (2, 5), (3, 1)]);
    assert_eq!(top_ranked(&scored, 2), vec![(1, 9), (0, 5)]);
    assert_eq!(top_ranked(&scored, 0), vec![]);
    let index = test_index();
    let out = rank(&index, &scored[..2], 1);
    assert_eq!(names(&out), vec!["docs"]);
    assert_eq!((out.total, out.truncated), (2, true));
}

#[test]
fn a_block_collects_its_matches() {
    let index = test_index();
    let spec = parse("report", MatchMode::Substring, false);
    let plan = prepare(&spec).unwrap();
    let mut scored = Vec::new();
    let end = match_block(&index, &spec, Category::All, &plan, 0, &mut scored);
    assert_eq!(end, 5);
    assert_eq!(scored.iter().map(|m| m.0).collect::<Vec<_>>(), vec![2, 4]);
}

#[test]
fn overlong_fuzzy_words_are_noticed() {
    let index = test_index();
    let long = "a".repeat(70_000);
    // A long word is fine where the names are short, and a long name where the words
    // are.
    assert!(keeps_limits(&index, &parse(&long, MatchMode::Fuzzy, false)));
    assert!(keeps_limits(&index, &parse(&long, MatchMode::Substring, false)));
    let longer = files("/r", &["a".repeat(3_000)]);
    assert!(keeps_limits(&longer, &parse("aa", MatchMode::Fuzzy, false)));
    assert!(keeps_limits(&longer, &parse(&"aa ".repeat(3_000), MatchMode::Fuzzy, false)));
    assert!(keeps_limits(&longer, &parse(&"a".repeat(2_520), MatchMode::Fuzzy, false)));
    assert!(!keeps_limits(&longer, &parse(&"a".repeat(2_521), MatchMode::Fuzzy, false)));
    // A backslash keeps a word together, and weighs double.
    assert!(!keeps_limits(&longer, &parse(&"a\\ ".repeat(1_000), MatchMode::Fuzzy, false)));
    assert!(keeps_limits(&longer, &parse(&"\\".repeat(1_260), MatchMode::Fuzzy, false)));
    assert!(!keeps_limits(&longer, &parse(&"\\".repeat(1_261), MatchMode::Fuzzy, false)));
}

#[test]
fn the_longest_fuzzy_word_scores_in_full() {
    let word = "a".repeat(2_520);
    let index = files("/r", &[word.clone()]);
    let out = run(&index, &word, MatchMode::Fuzzy);
    assert_eq!(out.hits[0].score, 36 + 2_519 * 26);
    // Longer than every name: no match.
    let out = run(&index, &"a".repeat(2_600), MatchMode::Fuzzy);
    assert_eq!(out.total, 0);
}

#[test]
fn many_fuzzy_words_are_searched_for() {
    let index = files("/r", &["a".to_string(), "b".to_string()]);
    let out = run(&index, &"a ".repeat(40_000), MatchMode::Fuzzy);
    assert_eq!(names(&out), vec!["a"]);
    assert_eq!(out.hits[0].score, 40_000 * 36);
}

#[test]
fn doubled_backslashes_score_within_their_weight() {
    // A word that is not ASCII holds its idle backslashes twice.
    let word = "\u{e9}".to_string() + &"\\".repeat(1_259);
    let index = files("/r", &["\u{e9}".to_string() + &"\\".repeat(4_000)]);
    assert!(keeps_limits(&index, &parse(&word, MatchMode::Fuzzy, false)));
    let out = run(&index, &word, MatchMode::Fuzzy);
    assert_eq!(out.total, 1);
    assert!(out.hits[0].score <= 65_535);
}

#[test]
fn the_best_occurrence_of_a_term_counts() {
    let score = |name: &str| {
        substring_score(name, &parse("dog", MatchMode::Substring, false)).unwrap()
    };
    assert_eq!(score("hotdog dog.txt"), 700 + 186);
    assert_eq!(score("dogdog dog"), 700 + 190);
    assert_eq!(score("dogs hotdog"), 400 + 189);
    let list: Vec<String> =
        ["dogecoin.pdf", "hotdog dog.txt"].iter().map(|s| s.to_string()).collect();
    let index = files("/r", &list);
    let out = run(&index, "dog", MatchMode::Substring);
    assert_eq!(names(&out), vec!["hotdog dog.txt", "dogecoin.pdf"]);
}

#[test]
fn a_smaller_limit_shows_the_first_of_the_same_hits() {
    let mut list = vec!["dog.txt".to_string(), "my dog.txt".to_string()];
    for i in 0..20 {
        list.push(format!("hotdog{i}.txt"));
    }
    let index = files("/r", &list);
    let spec = parse("dog", MatchMode::Substring, false);
    let gen = AtomicU64::new(3);
    let many = execute(&index, &spec, Category::All, 100, 3, &gen).unwrap();
    assert_eq!((many.total, many.hits.len(), many.truncated), (22, 22, false));
    for pair in many.hits.windows(2) {
        assert!(pair[0].score > pair[1].score
            || (pair[0].score == pair[1].score && pair[0].idx < pair[1].idx));
    }
    for k in [0, 1, 2, 7, 22, 23] {
        let few = execute(&index, &spec, Category::All, k, 3, &gen).unwrap();
        assert_eq!(few.total, 22);
        assert_eq!(few.hits.len(), k.min(22));
        assert_eq!(few.truncated, k < 22);
        for (a, b) in few.hits.iter().zip(&many.hits) {
            assert_eq!((a.idx, a.score), (b.idx, b.score));
        }
    }
}

#[test]
fn fuzzy_scores_agree_with_the_matcher() {
    let index = test_index();
    let out = run(&index, "rpt2024", MatchMode::Fuzzy);
    let pattern = Pattern::parse("rpt2024", CaseMatching::Ignore, Normalization::Smart);
    let mut matcher = Matcher::new(Config::DEFAULT);
    let mut buf = Vec::new();
    let score = pattern.score(Utf32Str::new("report_2024.pdf", &mut buf), &mut matcher);
    assert_eq!(Some(out.hits[0].score), score);
}

#[test]
fn a_search_finds_exactly_the_matching_entries() {
    let names: Vec<String> =
        ["cat.txt", "dog.txt", "catdog.md", "bird.txt"].iter().map(|s| s.to_string()).collect();
    let index = files("/r", &names);
    let out = run(&index, "cat ext:txt,md", MatchMode::Substring);
    let mut found: Vec<&str> = out.hits.iter().map(|h| h.name.as_str()).collect();
    found.sort();
    // All of the matches fit, so all of them are shown.
    assert_eq!(found, vec!["cat.txt", "catdog.md"]);
    assert_eq!((out.total, out.truncated), (2, false));
    for h in &out.hits {
        assert_eq!(index.entries[h.idx as usize].name, h.name);
    }
}

#[test]
fn what_was_found_is_kept_only_while_the_counter_stands_still() {
    assert!(!is_stale(7, 7));
    assert!(is_stale(7, 8));
    assert!(is_stale(7, 6));
    assert_eq!(unless_stale(vec![1, 2], is_stale(7, 7)), Some(vec![1, 2]));
    assert_eq!(unless_stale(vec![1, 2], is_stale(7, 8)), None);
}
