use find_core::index::{FileMeta, Index};
use find_core::scan::{scan, RootWalk, WalkEntry};
use find_core::watcher::{apply_event, apply_events, batch_full, Event, EventKind, Seen};

fn index() -> Index {
    let entry = |path: &str, parent: &str, name: &str, depth, is_dir| WalkEntry {
        path: path.to_string(),
        parent_path: parent.to_string(),
        name: name.to_string(),
        depth,
        is_dir,
        stat: Some((1, 1)),
    };
    let entries = vec![
        entry("/r", "/", "/r", 0, true),
        entry("/r/d", "/r", "d", 1, true),
        entry("/r/d/x", "/r/d", "x", 2, false),
    ];
    scan(&["/r".to_string()], &[RootWalk { entries, finished: true }], 1, 2, false)
}

fn there(path: &str, is_dir: bool) -> Seen {
    let meta = FileMeta { is_dir, len: 5, modified: 6 };
    Seen { path: path.to_string(), exists: true, meta: Some(meta) }
}

fn gone(path: &str) -> Seen {
    Seen { path: path.to_string(), exists: false, meta: None }
}

fn paths(index: &Index) -> Vec<String> {
    let mut all: Vec<String> = (0..index.entries.len())
        .filter(|i| !index.entries[*i].is_deleted())
        .map(|i| index.full_path(i as u32))
        .collect();
    all.sort();
    all
}

#[test]
fn creations_and_removals_are_followed() {
    let mut idx = index();
    let events = vec![
        Event { kind: EventKind::Create, paths: vec![there("/r/new", true)] },
        Event { kind: EventKind::Create, paths: vec![there("/r/new/y", false)] },
        Event { kind: EventKind::Remove, paths: vec![there("/r/d", true)] },
    ];
    apply_events(&mut idx, &events, &[]);
    assert_eq!(paths(&idx), vec!["/r", "/r/new", "/r/new/y"]);
}

#[test]
fn renames_go_by_what_exists() {
    let mut idx = index();
    let rename =
        Event { kind: EventKind::Modify, paths: vec![gone("/r/d/x"), there("/r/d/z", false)] };
    apply_event(&mut idx, &rename, &[]);
    assert_eq!(paths(&idx), vec!["/r", "/r/d", "/r/d/z"]);
}

#[test]
fn access_and_excluded_paths_are_ignored() {
    let mut idx = index();
    let list = vec!["d".to_string()];
    apply_event(&mut idx, &Event { kind: EventKind::Access, paths: vec![gone("/r")] }, &[]);
    apply_event(&mut idx, &Event { kind: EventKind::Remove, paths: vec![gone("/r/d/x")] }, &list);
    apply_event(&mut idx, &Event { kind: EventKind::Any, paths: vec![there("/r/d/q", false)] }, &list);
    assert_eq!(paths(&idx), vec!["/r", "/r/d", "/r/d/x"]);
}

#[test]
fn unreadable_paths_change_nothing() {
    let mut idx = index();
    let seen = Seen { path: "/r/d/x".to_string(), exists: true, meta: None };
    apply_event(&mut idx, &Event { kind: EventKind::Other, paths: vec![seen] }, &[]);
    assert_eq!(paths(&idx).len(), 3);
}

#[test]
fn batches_are_bounded() {
    assert!(!batch_full(100_000));
    assert!(batch_full(100_001));
}
