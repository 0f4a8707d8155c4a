use find_core::index::Index;
use find_core::mft::{enumerate_volume, parse_records, Record};

fn usn(frn: u64, parent: u64, attributes: u32, name: &str) -> Vec<u8> {
    let name: Vec<u8> = name.encode_utf16().flat_map(|u| u.to_le_bytes()).collect();
    let len = (64 + name.len() + 7) / 8 * 8;
    let mut b = Vec::new();
    b.extend((len as u32).to_le_bytes());
    b.extend([2, 0, 0, 0]);
    b.extend(frn.to_le_bytes());
    b.extend(parent.to_le_bytes());
    b.extend([0; 16]);
    b.extend([0; 12]);
    b.extend(attributes.to_le_bytes());
    b.extend((name.len() as u16).to_le_bytes());
    b.extend(64u16.to_le_bytes());
    b.extend([0; 4]);
    b.extend(&name);
    b.resize(len, 0);
    b
}

fn record(name: &str, parent_frn: u64, is_dir: bool) -> Record {
    Record { name: name.to_string(), parent_frn, is_dir }
}

#[test]
fn buffers_hold_packed_records() {
    let mut b = 77u64.to_le_bytes().to_vec();
    b.extend(usn(10, 5, 0x10, "docs"));
    b.extend(usn(11, 10, 0x20, "a\u{1F600}.txt"));
    let (next, records) = parse_records(&b).unwrap();
    assert_eq!(next, 77);
    assert_eq!(records.len(), 2);
    assert_eq!(records[0].0, 10);
    assert_eq!(records[0].1.name, "docs");
    assert!(records[0].1.is_dir);
    assert_eq!(records[1].1.name, "a\u{1F600}.txt");
    assert_eq!(records[1].1.parent_frn, 10);
    assert!(!records[1].1.is_dir);
}

#[test]
fn short_and_broken_buffers_end_early() {
    assert!(parse_records(&[0; 8]).is_none());
    assert!(parse_records(&[]).is_none());
    let mut b = 1u64.to_le_bytes().to_vec();
    b.extend(usn(10, 5, 0, "x"));
    b.extend([0; 64]);
    assert_eq!(parse_records(&b).unwrap().1.len(), 1);
}

fn live_paths(index: &Index) -> Vec<String> {
    let mut all: Vec<String> =
        (0..index.entries.len()).map(|i| index.full_path(i as u32)).collect();
    all.sort();
    all
}

#[test]
fn volumes_are_rebuilt_from_records() {
    // Children may come before their parents.
    let records = vec![
        (12, record("b.txt", 11, false)),
        (11, record("sub", 10, true)),
        (10, record("docs", 5, true)),
        (13, record("top.txt", 5, false)),
        (14, record("orphan", 99, false)),
        (15, record(".git", 5, true)),
        (16, record("config", 15, false)),
        (17, record("loop", 18, true)),
        (18, record("pool", 17, true)),
    ];
    let mut index = Index::default();
    assert!(enumerate_volume(&mut index, "c:/", &[".git".to_string()], &records));
    assert_eq!(
        live_paths(&index),
        vec!["c:/", "c:/docs", "c:/docs/sub", "c:/docs/sub/b.txt", "c:/top.txt"]
    );
    assert!(index.dir_map.contains_key("c:/docs/sub"));
    for (i, e) in index.entries.iter().enumerate().skip(1) {
        assert!((e.parent as usize) < i);
    }
    let mut blank: Vec<String> =
        index.blank_entries(0, index.entries.len()).into_iter().map(|x| x.1).collect();
    blank.sort();
    assert_eq!(blank, live_paths(&index));
}

#[test]
fn roots_without_a_drive_letter_are_refused() {
    let mut index = Index::default();
    assert!(!enumerate_volume(&mut index, "/home", &[], &[]));
    assert!(!enumerate_volume(&mut index, "", &[], &[]));
    assert!(index.entries.is_empty());
}

#[test]
fn keys_lead_to_the_directories_of_the_volume() {
    let records = vec![
        (10, record("docs", 5, true)),
        (11, record("sub", 10, true)),
        (12, record("a.txt", 10, false)),
    ];
    let mut index = Index::default();
    let other = index.push_entry_pub("d:/", find_core::index::NO_PARENT, 0, 0, true);
    index.dir_map.insert("d:/", other);
    assert!(enumerate_volume(&mut index, "c:/", &[], &records));
    let at = |name: &str| index.entries.iter().position(|e| e.name == name).map(|i| i as u32);
    assert_eq!(index.dir_map.get("c:/"), at("c:/"));
    assert_eq!(index.dir_map.get("c:/docs"), at("docs"));
    assert_eq!(index.dir_map.get("c:/docs/sub"), at("sub"));
    assert_eq!(index.dir_map.get("d:/"), Some(other));
    assert_eq!(index.dir_map.len(), 4);
}
