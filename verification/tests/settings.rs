use find_core::query::MatchMode;
use find_core::settings::{draft_of, read_draft, AccentColor, Settings, ThemePreset};

#[test]
fn first_settings() {
    let s = Settings::first(vec!["/home/me".to_string()]);
    assert_eq!(s.roots, vec!["/home/me"]);
    assert_eq!(s.match_mode, MatchMode::Substring);
    assert_eq!(s.max_results, 5_000);
    assert_eq!(s.theme, ThemePreset::Graphite);
    assert_eq!(s.accent, AccentColor::Blue);
    assert!(s.auto_rescan_time.is_empty());
    assert!(!s.case_sensitive);
    assert!(s.show_preview && s.watch_filesystem && s.minimize_to_tray);
    assert!(s.exclusions.contains(&"node_modules".to_string()));
    assert_eq!(Settings::default().roots, vec!["/"]);
}

#[test]
fn labels() {
    let themes: Vec<&str> = ThemePreset::ALL.iter().map(|t| t.label()).collect();
    assert_eq!(themes, vec!["Graphite", "Carbon", "Navy"]);
    let accents: Vec<&str> = AccentColor::ALL.iter().map(|a| a.label()).collect();
    assert_eq!(accents, vec!["Blue", "Green", "Amber", "Violet"]);
}

#[test]
fn drafts_read_back() {
    let list = vec!["/a b".to_string(), "/c".to_string()];
    assert_eq!(draft_of(&list), "/a b\n/c");
    assert_eq!(read_draft(&draft_of(&list)), list);
    assert_eq!(read_draft("\n  /x \r\n\n\t/y"), vec!["/x", "/y"]);
    assert!(read_draft(" \n").is_empty());
}

#[test]
fn a_blank_draft_keeps_the_roots_but_not_the_exclusions() {
    let mut s = Settings::first(vec!["/a".to_string()]);
    s.apply_drafts("  \n", " ");
    assert_eq!(s.roots, vec!["/a"]);
    assert!(s.exclusions.is_empty());
    s.apply_drafts("/b\n/c", "x");
    assert_eq!(s.roots, vec!["/b", "/c"]);
    assert_eq!(s.exclusions, vec!["x"]);
}
