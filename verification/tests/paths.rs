use find_core::dir_map::DirMap;
use find_core::order::stable_positions;
use find_core::paths::{
    components, file_name, folder_of, join_path, normal_path, parent_path, respell, starts_with,
};
use std::path::Path;

const SAMPLES: [&str; 22] = [
    "", "/", "//", "a", "a/", "/a", "/a/b", "/a//b/", "a/./b", "./a", ".", "..", "a/..", "/..",
    "a/b/../c", "/a/b/.", "//a", "/.a/b.c", "a/.b", "./.", "/./a/./", "\u{e9}/\u{20AC}/x",
];

#[test]
fn parents_and_names_agree_with_the_standard_library() {
    for p in SAMPLES {
        let path = Path::new(p);
        assert_eq!(
            file_name(p),
            path.file_name().map(|n| n.to_string_lossy().into_owned()),
            "{p:?}"
        );
        assert_eq!(parent_path(p).is_some(), path.parent().is_some(), "{p:?}");
        if let Some(parent) = parent_path(p) {
            assert_eq!(Path::new(&parent), path.parent().unwrap(), "{p:?}");
        }
        let folder = path.parent().map(|f| f.display().to_string()).unwrap_or_default();
        assert_eq!(folder_of(p), folder, "{p:?}");
        let names: Vec<String> =
            path.components().map(|c| c.as_os_str().to_string_lossy().into_owned()).collect();
        assert_eq!(components(p), names, "{p:?}");
    }
}

#[test]
fn joining_agrees_with_the_standard_library() {
    for base in SAMPLES {
        for name in ["x", "/x", "", "x/y"] {
            let expected = Path::new(base).join(name).display().to_string();
            assert_eq!(join_path(base, name), expected, "{base:?} {name:?}");
        }
    }
}

#[test]
fn spellings_of_a_path_are_one_path() {
    assert_eq!(normal_path("/a//b/./"), "/a/b");
    for p in SAMPLES {
        for q in SAMPLES {
            assert_eq!(normal_path(p) == normal_path(q), Path::new(p) == Path::new(q), "{p} {q}");
            assert_eq!(starts_with(p, q), Path::new(p).starts_with(q), "{p:?} {q:?}");
        }
    }
}

#[test]
fn directory_maps_go_by_path() {
    let mut map = DirMap::new();
    assert!(map.is_empty());
    map.insert("/a/b", 1);
    map.insert("/a//b/", 2);
    map.insert("/a/bc", 3);
    assert_eq!(map.len(), 2);
    assert_eq!(map.get("/a/./b"), Some(2));
    assert_eq!(map.get("/a"), None);
    map.remove_tree("/a/b");
    assert!(!map.contains_key("/a/b"));
    assert!(map.contains_key("/a/bc"));
    map.remove("/a/bc/");
    assert!(map.is_empty());
    map.insert("/x", 1);
    map.clear();
    assert_eq!(map.len(), 0);
}

#[test]
fn positions_are_ordered_stably() {
    assert_eq!(stable_positions(&[3, 1, 2, 1]), vec![1, 3, 2, 0]);
    assert!(stable_positions(&[]).is_empty());
}

#[test]
fn respelling_exchanges_the_slashes() {
    assert_eq!(respell("C:/a b/\u{e9}"), "C:\\a b\\\u{e9}");
    assert_eq!(respell("a\\b/c"), "a/b\\c");
    for p in SAMPLES {
        assert_eq!(respell(&respell(p)), p);
    }
}
