use find_core::dates::human_date;
use find_core::index::{Index, LaunchPlan};
use find_core::query::MatchMode;
use find_core::results::SearchResponse;
use find_core::search::Hit;
use find_core::session::{
    explorer_argument, file_icon, head_text, progress_text, row_text, startup, upkeep, Command,
    Keys, RowAction, Session, Startup, Upkeep,
};
use find_core::settings::Settings;
use find_core::tray::{menu_message, TrayMsg};
use find_core::util::{default_exclusions, Category};

fn hit(idx: u32, path: &str) -> Hit {
    Hit {
        idx,
        score: 0,
        name: path.rsplit('/').next().unwrap().to_string(),
        path: path.to_string(),
        is_dir: false,
        size: 1536,
        modified: 1_700_000_000,
        content_line: None,
    }
}

fn session() -> Session {
    let mut s = Session::new(Settings::first(vec!["/home/me".to_string()]));
    s.list.show(SearchResponse {
        generation: 1,
        hits: vec![hit(10, "/d/a.png"), hit(11, "/d/b.txt")],
        total: 1234,
        truncated: true,
        elapsed_ms: 7,
    });
    s
}

fn show(commands: Vec<Command>) -> Vec<String> {
    commands
        .into_iter()
        .map(|c| match c {
            Command::Search => "search".to_string(),
            Command::LoadPreview(row) => format!("preview {row}"),
            Command::Open(path) => format!("open {path}"),
            Command::Reveal(path) => format!("reveal {path}"),
            Command::CopyText(text) => format!("copy {text}"),
            Command::SaveSettings => "save".to_string(),
            Command::Rescan => "rescan".to_string(),
            Command::ShowWindow => "show".to_string(),
            Command::HideWindow => "hide".to_string(),
            Command::Quit => "quit".to_string(),
        })
        .collect()
}

const NO_KEYS: Keys =
    Keys { down: false, up: false, enter: false, escape: false, copy_path: false };

#[test]
fn a_new_window() {
    let s = Session::new(Settings::first(vec!["/a".to_string(), "/b".to_string()]));
    assert_eq!(s.roots_draft, "/a\n/b");
    assert_eq!(s.exclusions_draft, default_exclusions().join("\n"));
    assert!(s.first_frame && !s.hidden && !s.quit_requested);
    assert!(s.list.results.is_empty());
    assert_eq!(s.category, Category::All);
}

#[test]
fn requests_carry_the_query_and_the_settings() {
    let mut s = session();
    s.query = "report".to_string();
    s.set_mode(MatchMode::Fuzzy);
    s.toggle_case();
    s.set_category(Category::Images);
    let r = s.request(9, false);
    assert_eq!((r.generation, r.query.as_str(), r.max_results), (9, "report", 5_000));
    assert_eq!((r.mode, r.case_sensitive, r.category), (MatchMode::Fuzzy, true, Category::Images));
}

#[test]
fn toolbar_choices_are_saved_and_searched() {
    let mut s = session();
    assert!(show(s.set_mode(MatchMode::Substring)).is_empty());
    assert_eq!(show(s.set_mode(MatchMode::Regex)), vec!["save", "search"]);
    assert_eq!(show(s.toggle_case()), vec!["save", "search"]);
    assert_eq!(show(s.toggle_preview()), vec!["save"]);
    assert!(!s.settings.show_preview);
    assert_eq!(show(s.set_category(Category::Code)), vec!["search"]);
}

#[test]
fn keys_move_open_copy_and_clear() {
    let mut s = session();
    s.query = "x".to_string();
    assert_eq!(show(s.handle_keys(Keys { enter: true, ..NO_KEYS })), vec!["open /d/a.png"]);
    assert!(show(s.handle_keys(Keys { copy_path: true, ..NO_KEYS })).is_empty());
    assert_eq!(show(s.handle_keys(Keys { down: true, ..NO_KEYS })), vec!["preview 0"]);
    assert_eq!(
        show(s.handle_keys(Keys { down: true, enter: true, copy_path: true, ..NO_KEYS })),
        vec!["preview 1", "open /d/b.txt", "copy /d/b.txt"]
    );
    assert!(show(s.handle_keys(Keys { down: true, ..NO_KEYS })).is_empty());
    assert_eq!(show(s.handle_keys(Keys { up: true, ..NO_KEYS })), vec!["preview 0"]);
    assert_eq!(show(s.handle_keys(Keys { escape: true, ..NO_KEYS })), vec!["search"]);
    assert_eq!(s.query, "");
    assert!(show(s.handle_keys(Keys { escape: true, ..NO_KEYS })).is_empty());
}

#[test]
fn dialogs_keep_keys_to_themselves() {
    let mut s = session();
    s.show_help = true;
    assert!(show(s.handle_keys(Keys { down: true, enter: true, ..NO_KEYS })).is_empty());
    assert_eq!(s.list.selected, None);
}

#[test]
fn previews_load_only_where_they_are_shown() {
    let mut s = session();
    s.toggle_preview();
    assert!(show(s.select(1)).is_empty());
    assert_eq!(s.list.preview_for, Some(11));
    assert!(show(s.select(7)).is_empty());
    assert_eq!(s.list.selected, Some(7));
}

#[test]
fn rows_have_actions() {
    let mut s = session();
    assert_eq!(show(s.double_click(0)), vec!["preview 0", "open /d/a.png"]);
    assert_eq!(show(s.row_action(1, RowAction::Open)), vec!["preview 1", "open /d/b.txt"]);
    assert_eq!(show(s.row_action(1, RowAction::Reveal)), vec!["reveal /d/b.txt"]);
    assert_eq!(show(s.row_action(1, RowAction::CopyPath)), vec!["copy /d/b.txt"]);
    assert_eq!(show(s.row_action(1, RowAction::CopyName)), vec!["copy b.txt"]);
    assert_eq!(show(s.row_action(1, RowAction::CopyFolder)), vec!["copy /d"]);
    assert!(show(s.row_action(9, RowAction::Open)).is_empty());
}

#[test]
fn drafts_are_applied_and_saved() {
    let mut s = session();
    s.roots_draft = " /x \n".to_string();
    s.exclusions_draft = "tmp\n\ncache".to_string();
    assert_eq!(show(s.apply_settings_draft(false)), vec!["save"]);
    assert_eq!(s.settings.roots, vec!["/x"]);
    assert_eq!(s.settings.exclusions, vec!["tmp", "cache"]);
    s.restore_exclusions();
    assert_eq!(s.exclusions_draft, default_exclusions().join("\n"));
    assert_eq!(show(s.apply_settings_draft(true)), vec!["save", "rescan"]);
    assert_eq!(s.settings.exclusions, default_exclusions());
}

#[test]
fn the_tray_hides_and_restores() {
    let mut s = session();
    assert_eq!(show(s.on_close(true)), vec!["hide"]);
    assert!(s.hidden);
    assert_eq!(show(s.on_tray(TrayMsg::Show)), vec!["show"]);
    assert!(!s.hidden);
    assert_eq!(show(s.on_tray(TrayMsg::Rescan)), vec!["rescan"]);
    assert!(show(s.on_close(false)).is_empty());
    assert_eq!(show(s.on_tray(TrayMsg::Quit)), vec!["quit"]);
    assert!(show(s.on_close(true)).is_empty());
    let mut other = session();
    other.settings.minimize_to_tray = false;
    assert!(show(other.on_close(true)).is_empty());
}

#[test]
fn menu_items_are_told_by_their_identifiers() {
    assert_eq!(menu_message("1", "1", "2", "3"), Some(TrayMsg::Show));
    assert_eq!(menu_message("2", "1", "2", "3"), Some(TrayMsg::Rescan));
    assert_eq!(menu_message("3", "1", "2", "3"), Some(TrayMsg::Quit));
    assert_eq!(menu_message("4", "1", "2", "3"), None);
}

#[test]
fn counts_come_from_the_scan_or_the_index() {
    let mut s = session();
    s.note_count(true, 5, Some(9));
    assert_eq!(s.index_count, 5);
    s.note_count(false, 5, Some(9));
    assert_eq!(s.index_count, 9);
    s.note_count(false, 5, None);
    assert_eq!(s.index_count, 9);
    s.index_count = 1_000_000;
    assert_eq!(s.count_text(), "1,000,000 objects indexed");
}

#[test]
fn upkeep_is_limited() {
    let idle = Upkeep { refresh: false, repaint_ms: None };
    assert_eq!(upkeep(None, false, false, false), idle);
    assert_eq!(upkeep(None, true, false, false), Upkeep { refresh: true, repaint_ms: None });
    assert_eq!(
        upkeep(Some(399), true, false, false),
        Upkeep { refresh: false, repaint_ms: Some(200) }
    );
    assert_eq!(upkeep(Some(400), true, true, false), Upkeep { refresh: true, repaint_ms: Some(150) });
    assert_eq!(upkeep(Some(1), true, true, true), idle);
}

#[test]
fn launches_use_what_was_saved() {
    let roots = vec!["/a".to_string()];
    assert_eq!(startup(None, &roots, 0, 0), Startup::Build);
    let mut index = Index::starting(roots.clone(), 100);
    assert_eq!(startup(Some(&index), &roots, 0, 0), Startup::Saved(LaunchPlan::Resume));
    index.complete = true;
    assert_eq!(startup(Some(&index), &roots, i64::MAX, 0), Startup::Saved(LaunchPlan::UseAsIs));
    assert_eq!(startup(Some(&index), &roots, 9999, 1), Startup::Saved(LaunchPlan::Refresh));
    assert_eq!(startup(Some(&index), &["/b".to_string()], 0, 0), Startup::Build);
    // What is restored of a complete index is used as it is too.
    let restored = Index::restore(
        index.entries,
        index.roots,
        index.scanned_at,
        index.complete,
        index.completed_roots,
    );
    let plan = startup(restored.as_ref(), &roots, i64::MAX, 0);
    assert_eq!(plan, Startup::Saved(LaunchPlan::UseAsIs));
}

#[test]
fn status_texts() {
    let mut s = session();
    assert_eq!(s.results_line(), "1,234 results (showing 2) in 7 ms");
    s.list.truncated = false;
    assert_eq!(s.results_line(), "1,234 results in 7 ms");
    assert_eq!(progress_text(65_536), "Indexing… 65,536 entries");
    assert_eq!(s.splash(true, 5), None);
    let empty = Session::new(Settings::first(vec![]));
    assert_eq!(empty.splash(true, 5000).as_deref(), Some("Indexing your drives… 5,000"));
    assert_eq!(empty.splash(false, 0).as_deref(), Some("Loading index…"));
}

#[test]
fn rows_show_their_texts() {
    let mut h = hit(1, "/d/a.png");
    let date = human_date(h.modified);
    let row = row_text(&h);
    assert_eq!(row.name, "🖼 a.png");
    assert_eq!(row.path, "/d/a.png");
    assert_eq!(row.size.as_deref(), Some("1.5 KB"));
    assert_eq!(row.modified, date);
    assert_eq!(row.line, None);
    h.content_line = Some((12, "todo".to_string()));
    assert_eq!(row_text(&h).line.as_deref(), Some("12: todo"));
    assert_eq!(head_text(&h), (format!("1.5 KB • {date}"), Some("line 12: todo".to_string())));
    h.is_dir = true;
    let row = row_text(&h);
    assert_eq!(row.name, "📁 a.png");
    assert_eq!(row.size, None);
}

#[test]
fn icons_follow_the_category() {
    for (name, icon) in [
        ("a.jpg", "🖼"),
        ("a.mp3", "🎵"),
        ("a.mkv", "🎬"),
        ("a.zip", "📦"),
        ("a.rs", "📜"),
        ("a.exe", "⚙"),
        ("a.pdf", "📄"),
        ("Makefile", "📄"),
    ] {
        assert_eq!(file_icon(name), icon, "{name}");
    }
}

#[test]
fn explorer_wants_quotes() {
    assert_eq!(explorer_argument("C:\\a b"), "/select,\"C:\\a b\"");
}
