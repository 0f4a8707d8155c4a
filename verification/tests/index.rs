use find_core::index::{
    frame_cache, launch_plan, system_time_secs, unframe_cache, Entry, FileMeta, Index, LaunchPlan,
    CACHE_FORMAT_VERSION, NO_PARENT,
};
use find_core::scan::{
    missing_roots, scan, scan_into, scan_resume, RootStream, RootWalk, WalkEntry,
};

/// A walk of `root`: the root itself, then what lies below it.
fn walk(root: &str, below: &[(&str, bool, u64)]) -> RootWalk {
    let mut entries = vec![WalkEntry {
        path: root.to_string(),
        parent_path: String::new(),
        name: root.to_string(),
        depth: 0,
        is_dir: true,
        stat: Some((4096, 7)),
    }];
    for (rel, is_dir, size) in below {
        let path = format!("{root}/{rel}");
        let (parent, name) = path.rsplit_once('/').unwrap();
        entries.push(WalkEntry {
            path: path.clone(),
            parent_path: parent.to_string(),
            name: name.to_string(),
            depth: rel.split('/').count(),
            is_dir: *is_dir,
            stat: Some((*size, 7)),
        });
    }
    RootWalk { entries, finished: true }
}

fn roots(list: &[&str]) -> Vec<String> {
    list.iter().map(|s| s.to_string()).collect()
}

fn position(index: &Index, name: &str) -> u32 {
    index.entries.iter().position(|e| e.name == name).unwrap() as u32
}

fn count(index: &Index, name: &str) -> usize {
    index.entries.iter().filter(|e| !e.is_deleted() && e.name == name).count()
}

type Stored = (Vec<(String, u32, u64, i64, u8)>, Vec<String>, i64, bool, Vec<String>);

fn serialize(index: &Index) -> Vec<u8> {
    let entries = index
        .entries
        .iter()
        .map(|e| (e.name.clone(), e.parent, e.size, e.modified, e.flags))
        .collect();
    let stored: Stored = (
        entries,
        index.roots.clone(),
        index.scanned_at,
        index.complete,
        index.completed_roots.clone(),
    );
    bincode::serialize(&stored).expect("index must serialize")
}

fn deserialize(bytes: &[u8]) -> Index {
    let (entries, roots, scanned_at, complete, completed_roots): Stored =
        bincode::deserialize(bytes).unwrap();
    Index {
        entries: entries
            .into_iter()
            .map(|(name, parent, size, modified, flags)| Entry {
                name,
                parent,
                size,
                modified,
                flags,
            })
            .collect(),
        roots,
        scanned_at,
        complete,
        completed_roots,
        ..Default::default()
    }
}

fn save(index: &Index) -> Vec<u8> {
    frame_cache(&serialize(index))
}

fn load(bytes: &[u8]) -> Option<Index> {
    let mut index = deserialize(unframe_cache(bytes)?);
    index.rebuild_derived();
    Some(index)
}

#[test]
fn test_scan_and_paths() {
    let tmp = "/tmp/find_test";
    let w = walk(
        tmp,
        &[("hello.txt", false, 11), ("sub dir", true, 0), ("sub dir/nested.rs", false, 12)],
    );
    let index = scan(&roots(&[tmp]), &[w], 1, 2, false);
    assert!(index.completed_roots.contains(&tmp.to_string()));
    assert!(index.entries.len() >= 4); // root, sub dir, 2 files

    let nested = position(&index, "nested.rs");
    assert_eq!(index.full_path(nested), "/tmp/find_test/sub dir/nested.rs");

    let hello = index.entries.iter().find(|e| e.name == "hello.txt").unwrap();
    assert_eq!(hello.size, 11);
    assert!(!hello.is_dir());
}

#[test]
fn test_lifecycle_no_rescan_after_completed_build() {
    let root = "/tmp/find_life/data";
    let w = walk(root, &[("a.txt", false, 1), ("sub", true, 0), ("sub/b.txt", false, 2)]);

    // Session 1: fresh streaming build completes and is saved.
    let mut live = Index::default();
    let now = 1_700_000_000;
    scan_into(&mut live, &roots(&[root]), &[w], now - 1, now, false);
    assert!(live.complete, "finished build must be marked complete");
    assert_eq!(live.completed_roots, vec![root.to_string()]);
    let cache = save(&live);

    // Session 2 (cold start): the cache loads complete, and the launch plan,
    // with refresh disabled (default), is UseAsIs: no scan.
    let loaded = load(&cache).expect("cache must load");
    assert!(loaded.complete);
    assert_eq!(loaded.live_count(), 4); // root, a.txt, sub, b.txt
    assert_eq!(launch_plan(loaded.complete, loaded.scanned_at, now, 0), LaunchPlan::UseAsIs);
    // Even a year later, refresh disabled means no scan at launch.
    assert_eq!(
        launch_plan(loaded.complete, loaded.scanned_at, now + 365 * 86_400, 0),
        LaunchPlan::UseAsIs
    );
    // With an opt-in threshold, young caches still skip the scan...
    assert_eq!(launch_plan(loaded.complete, loaded.scanned_at, now, 24), LaunchPlan::UseAsIs);
    // ...and only genuinely old ones refresh.
    assert_eq!(
        launch_plan(loaded.complete, loaded.scanned_at, now + 2 * 86_400, 24),
        LaunchPlan::Refresh
    );
}

#[test]
fn test_lifecycle_interrupted_build_resumes_missing_roots() {
    let root_a = "/tmp/find_resume/done_root";
    let root_b = "/tmp/find_resume/pending_root";

    // Session 1: only root A completes (as if the user quit during B).
    let mut live = Index::default();
    let walk_a = walk(root_a, &[("finished.txt", false, 1)]);
    scan_into(&mut live, &roots(&[root_a]), &[walk_a], 10, 11, false);
    // The interruption: B was requested but never finished.
    live.roots = roots(&[root_a, root_b]);
    live.complete = false;
    // Stale half-scanned junk from the aborted B pass:
    let fake_b_root = live.push_entry_pub(root_b, NO_PARENT, 0, 0, true);
    live.push_entry_pub("halfway.txt", fake_b_root, 1, 1, false);
    live.dir_map.insert(root_b, fake_b_root);
    let cache = save(&live);

    // Session 2: loads incomplete -> plan is Resume regardless of age.
    let loaded = load(&cache).expect("cache must load");
    assert!(!loaded.complete);
    assert_eq!(
        launch_plan(loaded.complete, loaded.scanned_at, i64::MAX / 2, 0),
        LaunchPlan::Resume
    );

    let mut live = loaded;
    assert_eq!(count(&live, "finished.txt"), 1);
    assert_eq!(missing_roots(&live, &roots(&[root_a, root_b])), vec![false, true]);

    let skipped = RootWalk { entries: vec![], finished: false };
    let walk_b = walk(root_b, &[("missing.txt", false, 1)]);
    scan_resume(&mut live, &roots(&[root_a, root_b]), &[skipped, walk_b], 20, false);
    assert!(live.complete, "resume finishing all roots must mark complete");
    // A was not rescanned or duplicated.
    assert_eq!(count(&live, "finished.txt"), 1);
    // B's real file arrived; the stale junk from the aborted pass is gone.
    assert_eq!(count(&live, "missing.txt"), 1);
    assert_eq!(
        count(&live, "halfway.txt"),
        0,
        "stale partial entries must be purged on resume"
    );
    // And the completed state persists for session 3.
    let reloaded = load(&save(&live)).unwrap();
    assert!(reloaded.complete);
}

#[test]
fn test_full_path_rejects_file_as_parent() {
    // A corrupt parent pointer (a file used as a parent) must not produce
    // absurd "a.mp4/b.zip/c.dll/..." chains.
    let mut index = Index::default();
    let root = index.push_entry_pub("C:\\", NO_PARENT, 0, 0, true);
    let file = index.push_entry_pub("video.mp4", root, 10, 0, false);
    // Corrupt: point an entry at a *file* as its parent.
    let bogus = index.push_entry_pub("thing.png", file, 5, 0, false);
    assert_eq!(index.full_path(bogus), "thing.png", "must not chain through a file parent");
    // A well-formed entry still resolves fully.
    assert_eq!(index.full_path(file), "C:\\/video.mp4");
}

#[test]
fn test_cache_survives_non_utf8_names_and_rebuilds_maps() {
    let mut index =
        Index { roots: vec!["C:\\".to_string()], scanned_at: 99, ..Default::default() };
    let root = index.push_entry_pub("C:\\", NO_PARENT, 0, 0, true);
    let dir = index.push_entry_pub("sub", root, 0, 0, true);
    // A name with a lone surrogate, as produced by lossy conversion of an
    // unpaired UTF-16 surrogate in a real Windows filename.
    index.push_entry_pub("odd\u{FFFD}name.txt", dir, 7, 0, false);
    index.dir_map.insert("C:\\sub", dir);

    let bytes = serialize(&index);
    let mut restored = deserialize(&bytes);
    assert!(restored.dir_map.is_empty(), "maps are not serialized");
    restored.rebuild_derived();

    assert_eq!(restored.entries.len(), 3);
    assert_eq!(restored.roots, vec!["C:\\".to_string()]);
    // Derived maps came back.
    assert_eq!(restored.dir_map.len(), 2);
    assert!(restored.dir_map.contains_key("C:\\/sub"));
    assert_eq!(restored.children.get(&dir).map(Vec::len), Some(1));
    assert_eq!(restored.entries[2].name, "odd\u{FFFD}name.txt");
}

#[test]
fn test_cache_roundtrip_and_version_guard() {
    // A versioned header must survive a save/load cycle, and a file with the
    // wrong version must be rejected rather than misparsed.
    let index = Index { roots: vec!["/tmp/x".to_string()], scanned_at: 42, ..Default::default() };
    let body = serialize(&index);
    let good = frame_cache(&body);
    assert_eq!(&good[..4], CACHE_FORMAT_VERSION.to_le_bytes());
    let parsed = deserialize(unframe_cache(&good).unwrap());
    assert_eq!(parsed.scanned_at, 42);

    let mut bad = (CACHE_FORMAT_VERSION + 1).to_le_bytes().to_vec();
    bad.extend_from_slice(&body);
    assert!(
        unframe_cache(&bad).is_none(),
        "version guard must reject a newer cache format"
    );
    assert!(unframe_cache(&[3, 0, 0]).is_none());
}

#[test]
fn test_scan_into_live_index() {
    let tmp = "/tmp/find_test_live";
    let w = walk(tmp, &[("a.txt", false, 1), ("nested", true, 0), ("nested/b.txt", false, 2)]);
    let mut live = Index::default();
    scan_into(&mut live, &roots(&[tmp]), &[w], 1, 2, false);
    assert!(live.completed_roots.contains(&tmp.to_string()));

    assert_eq!(live.live_count(), 4); // root, a.txt, nested, b.txt
    let b = position(&live, "b.txt");
    assert_eq!(live.full_path(b), "/tmp/find_test_live/nested/b.txt");
    // The directory map was published, so the watcher could resolve parents.
    assert!(live.dir_map.contains_key("/tmp/find_test_live/nested"));
}

#[test]
fn test_upsert_and_remove() {
    let tmp = "/tmp/find_test_ur";
    let mut index =
        scan(&roots(&[tmp]), &[walk(tmp, &[("a.txt", false, 1)])], 1, 2, false);
    let before = index.live_count();

    let meta = FileMeta { is_dir: false, len: 2, modified: 3 };
    index.upsert_path("/tmp/find_test_ur/b.txt", Some(meta));
    assert_eq!(index.live_count(), before + 1);

    index.remove_path("/tmp/find_test_ur/b.txt");
    assert_eq!(index.live_count(), before);
}

#[test]
fn a_path_that_is_gone_is_not_added() {
    let tmp = "/r";
    let mut index = scan(&roots(&[tmp]), &[walk(tmp, &[])], 1, 2, false);
    index.upsert_path("/r/x", None);
    assert_eq!(index.live_count(), 1);
    // Nor is one whose folder is not indexed.
    let meta = FileMeta { is_dir: false, len: 2, modified: 3 };
    index.upsert_path("/elsewhere/x", Some(meta));
    assert_eq!(index.live_count(), 1);
}

#[test]
fn upserting_twice_refreshes_one_entry() {
    let mut index = scan(&roots(&["/r"]), &[walk("/r", &[])], 1, 2, false);
    index.upsert_path("/r/x", Some(FileMeta { is_dir: false, len: 2, modified: 3 }));
    index.upsert_path("/r/x", Some(FileMeta { is_dir: false, len: 9, modified: 4 }));
    assert_eq!(index.live_count(), 2);
    let x = &index.entries[position(&index, "x") as usize];
    assert_eq!((x.size, x.modified), (9, 4));
}

#[test]
fn a_removed_path_that_comes_back_is_revived() {
    let mut index =
        scan(&roots(&["/r"]), &[walk("/r", &[("x", false, 5)])], 1, 2, false);
    index.remove_path("/r/x");
    assert_eq!(index.live_count(), 1);
    index.upsert_path("/r/x", Some(FileMeta { is_dir: false, len: 6, modified: 4 }));
    assert_eq!(index.live_count(), 2);
    assert_eq!(index.entries.len(), 2);
}

#[test]
fn removing_a_folder_removes_what_lies_below_it() {
    let mut index = scan(
        &roots(&["/r"]),
        &[walk("/r", &[("d", true, 0), ("d/e", true, 0), ("d/e/f", false, 1), ("g", false, 1)])],
        1,
        2,
        false,
    );
    index.remove_path("/r/d/");
    assert_eq!(index.live_count(), 2);
    assert_eq!(count(&index, "f"), 0);
    assert_eq!(count(&index, "g"), 1);
    assert!(!index.dir_map.contains_key("/r/d"));
}

#[test]
fn purging_a_root_leaves_the_others_alone() {
    let (a, b) = (walk("/a", &[("x", false, 1)]), walk("/b", &[("d", true, 0), ("d/y", false, 1)]));
    let mut index = scan(&roots(&["/a", "/b"]), &[a, b], 1, 2, false);
    index.purge_root("/b");
    assert_eq!(index.live_count(), 2);
    assert_eq!(index.completed_roots, vec!["/a".to_string()]);
    assert!(index.dir_map.contains_key("/a"));
    assert!(!index.dir_map.contains_key("/b/d"));
}

#[test]
fn a_cancelled_build_is_not_complete() {
    let mut w = walk("/r", &[("x", false, 1)]);
    w.finished = false;
    let index = scan(&roots(&["/r"]), &[w], 5, 9, true);
    assert!(!index.complete);
    assert_eq!(index.scanned_at, 5);
    assert!(index.completed_roots.is_empty());
    assert_eq!(index.live_count(), 2);
}

#[test]
fn entries_whose_folder_was_skipped_are_skipped() {
    let mut w = walk("/r", &[("d", true, 0), ("d/x", false, 1)]);
    w.entries.remove(1);
    let index = scan(&roots(&["/r"]), &[w], 1, 2, false);
    assert_eq!(index.live_count(), 1);
}

#[test]
fn streaming_in_small_steps_gives_the_scanned_index() {
    let below = [("d", true, 0), ("d/x", false, 1), ("y", false, 2)];
    let w = walk("/r", &below);
    let scanned = scan(&roots(&["/r"]), &[walk("/r", &below)], 1, 2, false);
    let mut live = Index::starting(roots(&["/r"]), 1);
    let mut stream = RootStream::start(0);
    for entry in &w.entries {
        assert!(!stream.add(entry));
        stream.flush_batch(&mut live);
    }
    assert_eq!(live.entries.len(), scanned.entries.len());
    for i in 0..live.entries.len() {
        assert_eq!(live.entries[i].name, scanned.entries[i].name);
        assert_eq!(live.full_path(i as u32), scanned.full_path(i as u32));
    }
    assert_eq!(stream.base(), 4);
}

#[test]
fn metadata_is_filled_in_where_it_is_missing() {
    let mut index = Index::default();
    let root = index.push_entry_pub("C:/", NO_PARENT, 0, 0, true);
    let file = index.push_entry_pub("a.txt", root, 0, 0, false);
    index.push_entry_pub("b.txt", root, 4, 5, false);
    let blank = index.blank_entries(0, 3);
    assert_eq!(blank, vec![(root, "C:/".to_string()), (file, "C:/a.txt".to_string())]);
    index.fill_metadata(&[(file, 77, 88)]);
    assert_eq!(index.entries[file as usize].size, 77);
    assert_eq!(index.entries[file as usize].modified, 88);
}

/// Whether every entry comes after its directory.
fn in_order(index: &Index) -> bool {
    index
        .entries
        .iter()
        .enumerate()
        .all(|(i, e)| e.parent == NO_PARENT || (e.parent as usize) < i)
}

#[test]
fn entries_come_after_their_directories() {
    let below = [("d", true, 0), ("d/e", true, 0), ("d/e/a.txt", false, 1), ("b.txt", false, 2)];
    let mut index = scan(&roots(&["/r"]), &[walk("/r", &below)], 1, 2, false);
    assert!(in_order(&index));
    index.upsert_path("/r/d/new", found(true, 0, 5));
    index.upsert_path("/r/d/new/c.txt", found(false, 1, 5));
    index.remove_path("/r/d/e");
    index.purge_root("/r");
    assert!(in_order(&index));
    let mut live = Index::default();
    scan_into(&mut live, &roots(&["/r"]), &[walk("/r", &below)], 1, 2, false);
    assert!(in_order(&live));
    let none = RootWalk { entries: vec![], finished: false };
    let more = walk("/s", &[("x", true, 0), ("x/y", false, 3)]);
    scan_resume(&mut live, &roots(&["/r", "/s"]), &[none, more], 9, false);
    assert!(in_order(&live));
    assert_eq!(live.entries.len(), 8);
}

#[test]
fn pointers_that_form_a_loop_do_no_harm() {
    let entry = |name: &str, parent: u32| Entry::new(name.to_string(), parent, 0, 0, true);
    let list = vec![entry("a", 1), entry("b", 0), entry("c", 2), entry("d", 0), entry("/r", 9)];
    let mut index = Index::restore(list, vec![], 0, true, vec![]).unwrap();
    assert_eq!(index.live_count(), 5);
    let of_a = index.full_path(0);
    assert_eq!(index.dir_map.get(&of_a), Some(0));
    index.remove_path(&of_a);
    let deleted: Vec<bool> = index.entries.iter().map(|e| e.is_deleted()).collect();
    assert_eq!(deleted, vec![true, true, false, true, false]);
    let of_c = index.full_path(2);
    index.purge_root(&of_c);
    assert!(index.entries[2].is_deleted());
    assert_eq!(index.live_count(), 1);
}

#[test]
fn missing_times_count_as_the_epoch() {
    assert_eq!(system_time_secs(None), 0);
    assert_eq!(system_time_secs(Some(1_700_000_000)), 1_700_000_000);
}

#[test]
fn framing_tells_bodies_apart() {
    assert_ne!(frame_cache(&[1]), frame_cache(&[2]));
    assert_eq!(unframe_cache(&frame_cache(&[])), Some(&[][..]));
}

#[test]
fn every_walked_entry_is_indexed_at_its_path() {
    let w = walk("/r/", &[]);
    let mut below = walk("/r", &[("d", true, 0), ("d/e", true, 0), ("d/e/f", false, 1)]).entries;
    below.remove(0);
    let found: Vec<String> =
        w.entries.iter().chain(below.iter()).map(|e| e.path.clone()).collect();
    let all = RootWalk { entries: w.entries.into_iter().chain(below).collect(), finished: true };
    let index = scan(&roots(&["/r/"]), &[all], 1, 2, false);
    assert_eq!(index.entries.len(), found.len());
    for (i, path) in found.iter().enumerate() {
        assert_eq!(&index.full_path(i as u32), path);
    }
    assert_eq!(index.dir_map.get("/r//d/e"), Some(2));
}

#[test]
fn the_directory_map_follows_updates() {
    let mut index = scan(&roots(&["/r"]), &[walk("/r", &[("d", true, 0)])], 1, 2, false);
    let folder = FileMeta { is_dir: true, len: 0, modified: 3 };
    index.upsert_path("/r/d/n", Some(folder));
    let n = index.dir_map.get("/r/d/n").unwrap();
    assert_eq!(index.full_path(n), "/r/d/n");
    index.upsert_path("/r/d/n/x.txt", Some(FileMeta { is_dir: false, len: 4, modified: 5 }));
    let x = position(&index, "x.txt");
    assert_eq!(index.full_path(x), "/r/d/n/x.txt");
    index.remove_path("/r/d");
    assert!(index.entries[x as usize].is_deleted());
    assert_eq!(index.dir_map.get("/r/d"), None);
    assert_eq!(index.dir_map.get("/r"), Some(0));
}

#[test]
fn an_upserted_path_is_live_with_what_was_read() {
    let mut index = scan(&roots(&["/r"]), &[walk("/r", &[("d", true, 0)])], 1, 2, false);
    index.upsert_path("/r/d/x", Some(FileMeta { is_dir: false, len: 4, modified: 5 }));
    let x = &index.entries[position(&index, "x") as usize];
    assert_eq!((x.is_deleted(), x.is_dir(), x.size, x.modified), (false, false, 4, 5));
    // An indexed folder keeps its place and takes the new time.
    index.upsert_path("/r/d", Some(FileMeta { is_dir: true, len: 0, modified: 9 }));
    let d = &index.entries[position(&index, "d") as usize];
    assert_eq!((d.is_deleted(), d.is_dir(), d.size, d.modified), (false, true, 0, 9));
    assert_eq!(index.entries.len(), 3);
}

fn found(is_dir: bool, len: u64, modified: i64) -> Option<FileMeta> {
    Some(FileMeta { is_dir, len, modified })
}

#[test]
fn a_removed_directory_that_comes_back_takes_children_again() {
    let w = walk("/r", &[("d", true, 0), ("d/a.txt", false, 1)]);
    let mut index = scan(&roots(&["/r"]), &[w], 1, 2, false);
    let d = position(&index, "d");
    index.remove_path("/r/d");
    assert!(!index.dir_map.contains_key("/r/d"));
    index.upsert_path("/r/d", found(true, 0, 8));
    assert_eq!(index.dir_map.get("/r/d"), Some(d));
    assert!(!index.entries[d as usize].is_deleted());
    index.upsert_path("/r/d/child.txt", found(false, 3, 9));
    assert_eq!(count(&index, "child.txt"), 1);
    assert_eq!(index.full_path(position(&index, "child.txt")), "/r/d/child.txt");
    assert_eq!(count(&index, "a.txt"), 0);
}

#[test]
fn finding_the_same_twice_changes_nothing_more() {
    let built = || {
        let w = walk("/r", &[("d", true, 0), ("a.txt", false, 1)]);
        scan(&roots(&["/r"]), &[w], 1, 2, false)
    };
    for (path, meta) in [
        ("/r/d", found(true, 0, 50)),
        ("/r/a.txt", found(false, 9, 51)),
        ("/r/new.txt", found(false, 9, 52)),
        ("/r/newdir", found(true, 0, 53)),
        ("/elsewhere/x", found(false, 1, 54)),
        ("/r/a.txt", None),
    ] {
        let before = built();
        let mut index = built();
        let again = meta.as_ref().map(|m| FileMeta {
            is_dir: m.is_dir,
            len: m.len,
            modified: m.modified,
        });
        let gone = meta.is_none();
        index.upsert_path(path, meta);
        let once = serialize(&index);
        let dirs = index.dir_map.len();
        index.upsert_path(path, again);
        assert_eq!(serialize(&index), once, "{path}");
        assert_eq!(index.dir_map.len(), dirs);
        let changed: usize = before
            .entries
            .iter()
            .zip(&index.entries)
            .filter(|(a, b)| (a.size, a.modified, a.flags) != (b.size, b.modified, b.flags))
            .count()
            + index.entries.len()
            - before.entries.len();
        let ignored = gone || path == "/elsewhere/x";
        assert_eq!(changed, if ignored { 0 } else { 1 }, "{path}");
    }
}

#[test]
fn a_stored_index_is_restored_with_its_maps() {
    let w = walk("/r", &[("d", true, 0), ("d/a.txt", false, 1), ("gone", true, 0)]);
    let mut index = scan(&roots(&["/r"]), &[w], 1, 2, false);
    index.remove_path("/r/gone");
    // Whatever the maps hold, they are not stored.
    index.dir_map.insert("/nonsense", 0);
    let stored = deserialize(unframe_cache(&save(&index)).unwrap());
    let restored = Index::restore(
        stored.entries,
        stored.roots,
        stored.scanned_at,
        stored.complete,
        stored.completed_roots,
    )
    .unwrap();
    assert_eq!(serialize(&restored), serialize(&index));
    assert!(restored.entries[position(&restored, "gone") as usize].is_deleted());
    assert_eq!(restored.dir_map.len(), 2);
    assert_eq!(restored.dir_map.get("/r/d"), Some(position(&restored, "d")));
    assert!(!restored.dir_map.contains_key("/nonsense"));
    assert_eq!(restored.children, index.children);
    // An entry before its directory is restored too.
    let file = Entry::new("a.txt".to_string(), 1, 0, 0, false);
    let dir = Entry::new("d".to_string(), NO_PARENT, 0, 0, true);
    let other = Index::restore(vec![file, dir], vec![], 0, true, vec![]).unwrap();
    assert_eq!(other.full_path(0), "d/a.txt");
    assert_eq!(other.dir_map.get("d"), Some(1));
    assert_eq!(other.children.get(&1), Some(&vec![0]));
}
