use find_core::results::{pick_newest, sort_hits, ResultList, SearchResponse, SortKey};
use find_core::search::Hit;

fn hit(idx: u32, name: &str, path: &str, size: u64, modified: i64, score: u32) -> Hit {
    Hit {
        idx,
        score,
        name: name.to_string(),
        path: path.to_string(),
        is_dir: false,
        size,
        modified,
        content_line: None,
    }
}

fn sample() -> Vec<Hit> {
    vec![
        hit(1, "beta", "/b", 5, -3, 10),
        hit(2, "Alpha", "/a", 9, 8, 10),
        hit(3, "\u{c9}clair", "/a/c", 5, 2, 30),
        hit(4, "alpha", "/Z", 1, 2, 20),
        hit(5, "\u{e9}clair", "/a/b", 9, 0, 20),
    ]
}

fn order(key: SortKey, descending: bool) -> Vec<u32> {
    let mut hits = sample();
    sort_hits(&mut hits, key, descending);
    hits.iter().map(|h| h.idx).collect()
}

/// The order that the standard library's stable sort gives.
fn expected(key: SortKey, descending: bool) -> Vec<u32> {
    let mut hits = sample();
    let flip = match key {
        SortKey::Relevance => {
            hits.sort_by(|a, b| b.score.cmp(&a.score));
            !descending
        }
        SortKey::Name => {
            hits.sort_by(|a, b| a.name.to_lowercase().cmp(&b.name.to_lowercase()));
            descending
        }
        SortKey::Path => {
            hits.sort_by(|a, b| a.path.cmp(&b.path));
            descending
        }
        SortKey::BackslashPath => {
            hits.sort_by(|a, b| a.path.replace('/', "\\").cmp(&b.path.replace('/', "\\")));
            descending
        }
        SortKey::Size => {
            hits.sort_by(|a, b| b.size.cmp(&a.size));
            !descending
        }
        SortKey::Modified => {
            hits.sort_by(|a, b| b.modified.cmp(&a.modified));
            !descending
        }
    };
    if flip {
        hits.reverse();
    }
    hits.iter().map(|h| h.idx).collect()
}

#[test]
fn sorting_agrees_with_the_standard_library() {
    for key in [
        SortKey::Relevance,
        SortKey::Name,
        SortKey::Path,
        SortKey::BackslashPath,
        SortKey::Size,
        SortKey::Modified,
    ] {
        for descending in [true, false] {
            assert_eq!(order(key, descending), expected(key, descending), "{key:?} {descending}");
        }
    }
    assert_eq!(order(SortKey::Size, true), vec![2, 5, 1, 3, 4]);
    assert_eq!(order(SortKey::Name, false), vec![2, 4, 1, 3, 5]);
}

#[test]
fn long_lists_are_sorted() {
    let mut n: u64 = 3;
    let mut hits = Vec::new();
    for i in 0..5000 {
        n = n.wrapping_mul(6364136223846793005).wrapping_add(1442695040888963407);
        hits.push(hit(i, "x", "/x", n >> 50, 0, 0));
    }
    let mut model = hits.clone();
    model.sort_by(|a, b| b.size.cmp(&a.size));
    sort_hits(&mut hits, SortKey::Size, true);
    let ids = |v: &Vec<Hit>| v.iter().map(|h| h.idx).collect::<Vec<_>>();
    assert_eq!(ids(&hits), ids(&model));
}

fn response(generation: u64, hits: Vec<Hit>) -> SearchResponse {
    SearchResponse { generation, total: hits.len(), hits, truncated: false, elapsed_ms: 3 }
}

#[test]
fn the_newest_answer_is_shown() {
    let mut list = ResultList::new();
    assert!(!list.accept(vec![]));
    assert!(list.accept(vec![
        response(3, sample()[..2].to_vec()),
        response(5, sample()),
        response(4, vec![])
    ]));
    assert_eq!(list.displayed_generation, 5);
    assert_eq!((list.results.len(), list.total, list.search_ms), (5, 5, 3));
    // Late answers to older searches are dropped.
    assert!(!list.accept(vec![response(5, vec![]), response(2, vec![])]));
    assert_eq!(list.results.len(), 5);
    assert!(pick_newest(vec![response(1, vec![])], 1).is_none());
}

#[test]
fn the_selection_follows_the_entry() {
    let mut list = ResultList::new();
    list.accept(vec![response(1, sample())]);
    list.select(3);
    assert_eq!(list.preview_for, Some(4));
    let mut next = sample();
    next.remove(0);
    list.accept(vec![response(2, next.clone())]);
    assert_eq!(list.selected, Some(2));
    assert_eq!(list.results[2].idx, 4);
    next.remove(2);
    list.accept(vec![response(3, next)]);
    assert_eq!(list.selected, None);
}

#[test]
fn headers_sort_and_turn() {
    let mut list = ResultList::new();
    list.accept(vec![response(1, sample())]);
    list.select(0);
    list.click_header(SortKey::Size);
    let ids = |l: &ResultList| l.results.iter().map(|h| h.idx).collect::<Vec<_>>();
    assert_eq!(ids(&list), vec![2, 5, 1, 3, 4]);
    assert_eq!(list.selected, Some(2));
    assert_eq!(list.header_text("Size", SortKey::Size), "Size ▼");
    assert_eq!(list.header_text("Name", SortKey::Name), "Name");
    list.click_header(SortKey::Size);
    assert_eq!(list.header_text("Size", SortKey::Size), "Size ▲");
    assert_eq!(ids(&list).first(), Some(&4));
    assert_eq!(list.results[list.selected.unwrap()].idx, 1);
    // New answers come sorted the same way.
    list.accept(vec![response(2, sample())]);
    assert_eq!(ids(&list).first(), Some(&4));
}

#[test]
fn steps_stay_in_the_list() {
    let mut list = ResultList::new();
    list.accept(vec![response(1, sample()[..2].to_vec())]);
    assert!(list.step(true));
    assert_eq!(list.selected, Some(0));
    assert!(list.scroll_to_selected);
    assert!(list.step(true));
    assert_eq!(list.selected, Some(1));
    assert!(!list.step(true));
    assert_eq!(list.selected, Some(1));
    list.step(false);
    list.step(false);
    assert_eq!(list.selected, Some(0));
}

#[test]
fn matching_lines_are_noticed() {
    let mut list = ResultList::new();
    assert!(!list.has_content());
    let mut hits = sample();
    hits[4].content_line = Some((1, "x".to_string()));
    list.accept(vec![response(1, hits)]);
    assert!(list.has_content());
}

#[test]
fn backslashes_sort_after_letters_in_capitals() {
    let mut hits = vec![hit(1, "x", "C:/a/x", 0, 0, 0), hit(2, "x", "C:/aX/x", 0, 0, 0)];
    sort_hits(&mut hits, SortKey::Path, false);
    assert_eq!(hits.iter().map(|h| h.idx).collect::<Vec<_>>(), vec![1, 2]);
    sort_hits(&mut hits, SortKey::BackslashPath, false);
    assert_eq!(hits.iter().map(|h| h.idx).collect::<Vec<_>>(), vec![2, 1]);
}
