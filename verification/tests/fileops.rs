use find_core::fileops::{clipboard_files, delete_list, delete_outcome, describe, ClipMode};
use find_core::utf16::from_utf16_lossy;

fn paths(list: &[&str]) -> Vec<String> {
    list.iter().map(|s| s.to_string()).collect()
}

#[test]
fn test_describe() {
    assert_eq!(describe(&[]), "nothing");
    assert_eq!(
        describe(&["C:\\dir\\file.txt".to_string()]),
        if std::path::is_separator('\\') { "file.txt" } else { "C:\\dir\\file.txt" }
    );
    assert_eq!(
        describe(&["a".to_string(), "b".to_string(), "c".to_string()]),
        "3 items"
    );
}

#[test]
fn one_path_is_described_by_its_name() {
    assert_eq!(describe(&paths(&["/dir/file.txt"])), "file.txt");
    assert_eq!(describe(&paths(&["/dir/sub/"])), "sub");
    assert_eq!(describe(&paths(&["/"])), "/");
    assert_eq!(describe(&paths(&["/dir/.."])), "/dir/..");
}

#[test]
fn clipboards_hold_a_drop_list() {
    let p = clipboard_files(&paths(&["C:/a", "\u{1F600}"]), ClipMode::Cut, true).unwrap();
    let header = [20, 0, 0, 0, 0, 0, 0, 0, 0, 0, 0, 0, 0, 0, 0, 0, 1, 0, 0, 0];
    assert_eq!(&p.files[..20], &header[..]);
    let expected: Vec<u8> =
        "C:/a\0\u{1F600}\0\0".encode_utf16().flat_map(|u| u.to_le_bytes()).collect();
    assert_eq!(&p.files[20..], &expected[..]);
    assert_eq!(p.effect, 2);
    assert_eq!(clipboard_files(&paths(&["x"]), ClipMode::Copy, true).unwrap().effect, 1);
}

#[test]
fn clipboards_refuse_nothing_and_other_platforms() {
    assert_eq!(
        clipboard_files(&[], ClipMode::Copy, true).err(),
        Some("nothing selected".to_string())
    );
    assert_eq!(
        clipboard_files(&paths(&["x"]), ClipMode::Copy, false).err(),
        Some("clipboard file operations are only implemented on Windows".to_string())
    );
}

#[test]
fn path_lists_read_back() {
    let list = delete_list(&paths(&["C:/a b", "D:/\u{e9}"])).unwrap();
    let pieces: Vec<String> = list.split(|u| *u == 0).map(from_utf16_lossy).collect();
    assert_eq!(pieces, vec!["C:/a b", "D:/\u{e9}", "", ""]);
    assert_eq!(delete_list(&[]).err(), Some("nothing selected".to_string()));
}

#[test]
fn deletions_report_what_went_wrong() {
    assert_eq!(delete_outcome(0, false), Ok(()));
    assert_eq!(delete_outcome(0, true), Err("delete was cancelled".to_string()));
    assert_eq!(
        delete_outcome(124, true),
        Err("delete failed (shell error 124)".to_string())
    );
    assert_eq!(
        delete_outcome(i32::MIN, false),
        Err("delete failed (shell error -2147483648)".to_string())
    );
}
