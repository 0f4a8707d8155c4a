//! The state of the window, what user input does to it, and the texts that it
//! shows.

use crate::dates::{human_date, shows_date};
use crate::index::{
    framed, launch_plan, law_stored_index_is_restored, plan_of, restorable, restored, stored, Index,
    IndexView, LaunchPlan, StoredView,
};
use crate::numbers::{decimal, grouped, push_decimal};
use crate::paths::{folder_of, is_folder_text, parent_of, same_list};
use crate::query::MatchMode;
use crate::results::{empty_list, ListView, ResultList};
use crate::search::{hit_views, Hit, HitView};
use crate::settings::{draft_of, with_drafts, Settings, SettingsView};
use crate::text::{join, occurs, occurs_at, views};
use crate::tray::TrayMsg;
use crate::util::{
    default_exclusion_list, default_exclusions, human_size, size_text, thousands, Category,
};
use crate::worker::{RequestView, SearchRequest};
use vstd::prelude::*;
use vstd::string::*;

verus! {

pub struct Session {
    pub settings: Settings,
    pub query: String,
    pub category: Category,
    /// Objects in the index, as far as the window knows.
    pub index_count: usize,
    pub list: ResultList,
    pub show_settings: bool,
    pub show_help: bool,
    pub roots_draft: String,
    pub exclusions_draft: String,
    pub first_frame: bool,
    /// True while the window is hidden in the tray.
    pub hidden: bool,
    pub quit_requested: bool,
}

#[verifier::ext_equal]
pub struct SessionView {
    pub settings: SettingsView,
    pub query: Seq<char>,
    pub category: Category,
    pub index_count: usize,
    pub list: ListView,
    pub show_settings: bool,
    pub show_help: bool,
    pub roots_draft: Seq<char>,
    pub exclusions_draft: Seq<char>,
    pub first_frame: bool,
    pub hidden: bool,
    pub quit_requested: bool,
}

impl View for Session {
    type V = SessionView;

    open spec fn view(&self) -> SessionView {
        SessionView {
            settings: self.settings@,
            query: self.query@,
            category: self.category,
            index_count: self.index_count,
            list: self.list@,
            show_settings: self.show_settings,
            show_help: self.show_help,
            roots_draft: self.roots_draft@,
            exclusions_draft: self.exclusions_draft@,
            first_frame: self.first_frame,
            hidden: self.hidden,
            quit_requested: self.quit_requested,
        }
    }
}

/// What the window does next.
pub enum Command {
    /// Run the query as it now stands.
    Search,
    /// Load the preview of a row.
    LoadPreview(usize),
    Open(String),
    /// Show a file in the file manager.
    Reveal(String),
    CopyText(String),
    SaveSettings,
    Rescan,
    ShowWindow,
    HideWindow,
    Quit,
}

pub enum CommandView {
    Search,
    LoadPreview(usize),
    Open(Seq<char>),
    Reveal(Seq<char>),
    CopyText(Seq<char>),
    SaveSettings,
    Rescan,
    ShowWindow,
    HideWindow,
    Quit,
}

impl View for Command {
    type V = CommandView;

    open spec fn view(&self) -> CommandView {
        match self {
            Command::Search => CommandView::Search,
            Command::LoadPreview(row) => CommandView::LoadPreview(*row),
            Command::Open(path) => CommandView::Open(path@),
            Command::Reveal(path) => CommandView::Reveal(path@),
            Command::CopyText(text) => CommandView::CopyText(text@),
            Command::SaveSettings => CommandView::SaveSettings,
            Command::Rescan => CommandView::Rescan,
            Command::ShowWindow => CommandView::ShowWindow,
            Command::HideWindow => CommandView::HideWindow,
            Command::Quit => CommandView::Quit,
        }
    }
}

pub open spec fn command_views(list: Seq<Command>) -> Seq<CommandView> {
    list.map_values(|c: Command| c@)
}

fn add_command(list: &mut Vec<Command>, c: Command)
    ensures
        command_views(final(list)@) == command_views(old(list)@).push(c@),
{
    let ghost was = list@;
    list.push(c);
    assert(command_views(list@) =~= command_views(was).push(c@));
}

fn no_commands() -> (r: Vec<Command>)
    ensures
        command_views(r@) == Seq::<CommandView>::empty(),
{
    let r: Vec<Command> = Vec::new();
    assert(command_views(r@) =~= Seq::<CommandView>::empty());
    r
}

/// What can be done with a row.
#[derive(Clone, Copy, Debug, PartialEq, Eq, Structural)]
pub enum RowAction {
    Open,
    Reveal,
    CopyPath,
    CopyName,
    CopyFolder,
}

/// The keys that were pressed.
#[derive(Clone, Copy, Debug)]
pub struct Keys {
    pub down: bool,
    pub up: bool,
    pub enter: bool,
    pub escape: bool,
    pub copy_path: bool,
}

// ---------------------------------------------------------------------------
// Model
// ---------------------------------------------------------------------------

/// The state of a window that has just been opened.
pub open spec fn opened(settings: SettingsView) -> SessionView {
    SessionView {
        settings,
        query: Seq::empty(),
        category: Category::All,
        index_count: 0,
        list: empty_list(),
        show_settings: false,
        show_help: false,
        roots_draft: join(settings.roots, seq!['\n']),
        exclusions_draft: join(settings.exclusions, seq!['\n']),
        first_frame: true,
        hidden: false,
        quit_requested: false,
    }
}

/// A state and the commands that led to it or follow from it.
pub type Step = (SessionView, Seq<CommandView>);

impl SessionView {
    /// The state with a row selected. The preview is loaded where it is shown
    /// and turns to another entry.
    pub open spec fn selecting(self, row: usize) -> Step {
        (
            SessionView { list: self.list.with_selected(row), ..self },
            if self.list.turns_to(row) && self.settings.show_preview {
                seq![CommandView::LoadPreview(row)]
            } else {
                Seq::empty()
            },
        )
    }

    /// The state with the selection moved by the arrow keys.
    pub open spec fn stepping(self, row: usize) -> Step {
        let (s, c) = self.selecting(row);
        (SessionView { list: ListView { scroll_to_selected: true, ..s.list }, ..s }, c)
    }

    /// What opening a row comes to.
    pub open spec fn opening(self, row: usize) -> Seq<CommandView> {
        if row < self.list.results.len() {
            seq![CommandView::Open(self.list.results[row as int].path)]
        } else {
            Seq::empty()
        }
    }

    pub open spec fn after_down(self, pressed: bool) -> Step {
        if pressed && self.list.results.len() > 0 {
            self.stepping(self.list.row_below())
        } else {
            (self, Seq::empty())
        }
    }

    pub open spec fn after_up(self, pressed: bool) -> Step {
        if pressed && self.list.results.len() > 0 {
            self.stepping(self.list.row_above())
        } else {
            (self, Seq::empty())
        }
    }

    /// Enter opens the selected row, or the first.
    pub open spec fn after_enter(self, pressed: bool) -> Seq<CommandView> {
        if pressed && self.list.results.len() > 0 {
            self.opening(
                match self.list.selected {
                    Some(row) => row,
                    None => 0,
                },
            )
        } else {
            Seq::empty()
        }
    }

    /// Escape clears the query.
    pub open spec fn after_escape(self, pressed: bool) -> Step {
        if pressed && self.query.len() > 0 {
            (SessionView { query: Seq::empty(), ..self }, seq![CommandView::Search])
        } else {
            (self, Seq::empty())
        }
    }

    pub open spec fn after_copy(self, pressed: bool) -> Seq<CommandView> {
        match self.list.selected {
            Some(row) if pressed && row < self.list.results.len() => seq![
                CommandView::CopyText(self.list.results[row as int].path),
            ],
            _ => Seq::empty(),
        }
    }

    /// What keys do, one after the other. An open dialog keeps them to itself.
    pub open spec fn after_keys(self, k: Keys) -> Step {
        if self.show_settings || self.show_help {
            (self, Seq::empty())
        } else {
            let (a, ca) = self.after_down(k.down);
            let (b, cb) = a.after_up(k.up);
            let cc = b.after_enter(k.enter);
            let (d, cd) = b.after_escape(k.escape);
            let ce = d.after_copy(k.copy_path);
            (d, ca + cb + cc + cd + ce)
        }
    }

    /// What a message from the tray does.
    pub open spec fn after_tray(self, msg: TrayMsg) -> Step {
        match msg {
            TrayMsg::Show => (SessionView { hidden: false, ..self }, seq![CommandView::ShowWindow]),
            TrayMsg::Rescan => (SessionView { hidden: false, ..self }, seq![CommandView::Rescan]),
            TrayMsg::Quit => (SessionView { quit_requested: true, ..self }, seq![CommandView::Quit]),
        }
    }

    /// Whether closing the window only hides it: the user wants it to, there is
    /// a tray to hide in, and quitting was not asked for.
    pub open spec fn hides_on_close(self, has_tray: bool) -> bool {
        self.settings.minimize_to_tray && has_tray && !self.quit_requested
    }

    pub open spec fn after_close(self, has_tray: bool) -> Step {
        if self.hides_on_close(has_tray) {
            (SessionView { hidden: true, ..self }, seq![CommandView::HideWindow])
        } else {
            (self, Seq::empty())
        }
    }
}

/// The one command that a row action comes to, given the hit; the folder is
/// copied as the path spells it.
pub open spec fn is_row_command(h: HitView, action: RowAction, c: CommandView) -> bool {
    match action {
        RowAction::Open => c == CommandView::Open(h.path),
        RowAction::Reveal => c == CommandView::Reveal(h.path),
        RowAction::CopyPath => c == CommandView::CopyText(h.path),
        RowAction::CopyName => c == CommandView::CopyText(h.name),
        RowAction::CopyFolder => c matches CommandView::CopyText(folder) && (match parent_of(
            h.path,
        ) {
            Some(_) => is_folder_text(h.path, folder),
            None => folder.len() == 0,
        }),
    }
}

// ---------------------------------------------------------------------------
// Input
// ---------------------------------------------------------------------------

impl Session {
    /// A window that has just been opened.
    pub fn new(settings: Settings) -> (r: Session)
        ensures
            r@ == opened(settings@),
    {
        let roots_draft = draft_of(settings.roots.as_slice());
        let exclusions_draft = draft_of(settings.exclusions.as_slice());
        let r = Session {
            settings,
            query: String::new(),
            category: Category::All,
            index_count: 0,
            list: ResultList::new(),
            show_settings: false,
            show_help: false,
            roots_draft,
            exclusions_draft,
            first_frame: true,
            hidden: false,
            quit_requested: false,
        };
        assert(r.query@ =~= Seq::<char>::empty());
        r
    }

    /// The request for the query as it now stands. `backslashes` says whether the
    /// platform separates the components of a path with them.
    pub fn request(&self, generation: u64, backslashes: bool) -> (r: SearchRequest)
        ensures
            r@ == (RequestView {
                generation,
                query: self@.query,
                mode: self@.settings.match_mode,
                case_sensitive: self@.settings.case_sensitive,
                category: self@.category,
                max_results: self@.settings.max_results,
                backslashes,
            }),
    {
        SearchRequest {
            generation,
            query: self.query.clone(),
            mode: self.settings.match_mode,
            case_sensitive: self.settings.case_sensitive,
            category: self.category,
            max_results: self.settings.max_results,
            backslashes,
        }
    }

    /// Chooses a match mode.
    pub fn set_mode(&mut self, mode: MatchMode) -> (r: Vec<Command>)
        ensures
            final(self)@ == (SessionView {
                settings: SettingsView { match_mode: mode, ..old(self)@.settings },
                ..old(self)@
            }),
            command_views(r@) == (if mode == old(self)@.settings.match_mode {
                Seq::empty()
            } else {
                seq![CommandView::SaveSettings, CommandView::Search]
            }),
    {
        let mut r = no_commands();
        if mode != self.settings.match_mode {
            self.settings.match_mode = mode;
            add_command(&mut r, Command::SaveSettings);
            add_command(&mut r, Command::Search);
        }
        r
    }

    /// Switches between minding case and ignoring it.
    pub fn toggle_case(&mut self) -> (r: Vec<Command>)
        ensures
            final(self)@ == (SessionView {
                settings: SettingsView {
                    case_sensitive: !old(self)@.settings.case_sensitive,
                    ..old(self)@.settings
                },
                ..old(self)@
            }),
            command_views(r@) == seq![CommandView::SaveSettings, CommandView::Search],
    {
        self.settings.case_sensitive = !self.settings.case_sensitive;
        let mut r = no_commands();
        add_command(&mut r, Command::SaveSettings);
        add_command(&mut r, Command::Search);
        r
    }

    /// Shows the preview pane or puts it away.
    pub fn toggle_preview(&mut self) -> (r: Vec<Command>)
        ensures
            final(self)@ == (SessionView {
                settings: SettingsView {
                    show_preview: !old(self)@.settings.show_preview,
                    ..old(self)@.settings
                },
                ..old(self)@
            }),
            command_views(r@) == seq![CommandView::SaveSettings],
    {
        self.settings.show_preview = !self.settings.show_preview;
        let mut r = no_commands();
        add_command(&mut r, Command::SaveSettings);
        r
    }

    /// Chooses a category.
    pub fn set_category(&mut self, category: Category) -> (r: Vec<Command>)
        ensures
            final(self)@ == (SessionView { category, ..old(self)@ }),
            command_views(r@) == seq![CommandView::Search],
    {
        self.category = category;
        let mut r = no_commands();
        add_command(&mut r, Command::Search);
        r
    }

    /// Puts the built-in exclusions into the draft.
    pub fn restore_exclusions(&mut self)
        ensures
            exists|windows: bool|
                final(self)@ == (SessionView {
                    exclusions_draft: join(
                        #[trigger] default_exclusion_list(windows),
                        seq!['\n'],
                    ),
                    ..old(self)@
                }),
    {
        let list = default_exclusions();
        self.exclusions_draft = draft_of(list.as_slice());
        proof {
            if views(list@) == default_exclusion_list(true) {
                assert(self@ == (SessionView {
                    exclusions_draft: join(default_exclusion_list(true), seq!['\n']),
                    ..old(self)@
                }));
            } else {
                assert(self@ == (SessionView {
                    exclusions_draft: join(default_exclusion_list(false), seq!['\n']),
                    ..old(self)@
                }));
            }
        }
    }

    /// Applies and saves the drafts, and rescans if asked.
    pub fn apply_settings_draft(&mut self, rescan: bool) -> (r: Vec<Command>)
        ensures
            final(self)@ == (SessionView {
                settings: with_drafts(
                    old(self)@.settings,
                    old(self)@.roots_draft,
                    old(self)@.exclusions_draft,
                ),
                ..old(self)@
            }),
            command_views(r@) == (if rescan {
                seq![CommandView::SaveSettings, CommandView::Rescan]
            } else {
                seq![CommandView::SaveSettings]
            }),
    {
        self.settings.apply_drafts(self.roots_draft.as_str(), self.exclusions_draft.as_str());
        let mut r = no_commands();
        add_command(&mut r, Command::SaveSettings);
        if rescan {
            add_command(&mut r, Command::Rescan);
        }
        r
    }

    /// Selects a row.
    pub fn select(&mut self, row: usize) -> (r: Vec<Command>)
        ensures
            (final(self)@, command_views(r@)) == old(self)@.selecting(row),
    {
        let mut r = no_commands();
        if self.list.select(row) && self.settings.show_preview {
            add_command(&mut r, Command::LoadPreview(row));
        }
        r
    }

    fn open_row(&self, row: usize, out: &mut Vec<Command>)
        ensures
            command_views(final(out)@) == command_views(old(out)@) + self@.opening(row),
    {
        if row < self.list.results.len() {
            assert(hit_views(self.list.results@)[row as int] == self.list.results@[row as int]@);
            add_command(out, Command::Open(self.list.results[row].path.clone()));
        }
        assert(command_views(out@) =~= command_views(old(out)@) + self@.opening(row));
    }

    /// Opens a row that was clicked twice.
    pub fn double_click(&mut self, row: usize) -> (r: Vec<Command>)
        ensures
            final(self)@ == old(self)@.selecting(row).0,
            command_views(r@) == old(self)@.selecting(row).1 + old(self)@.opening(row),
    {
        let mut r = self.select(row);
        self.open_row(row, &mut r);
        r
    }

    /// Does what was chosen from a row's menu.
    pub fn row_action(&mut self, row: usize, action: RowAction) -> (r: Vec<Command>)
        ensures
            final(self)@ == old(self)@.selecting(row).0,
            row >= old(self)@.list.results.len() ==> command_views(r@) == old(self)@.selecting(
                row,
            ).1,
            row < old(self)@.list.results.len() ==> exists|c: CommandView|
                command_views(r@) == old(self)@.selecting(row).1.push(c) && #[trigger]
                is_row_command(old(self)@.list.results[row as int], action, c),
    {
        let mut r = self.select(row);
        if row < self.list.results.len() {
            let hit = &self.list.results[row];
            assert(hit_views(self.list.results@)[row as int] == hit@);
            let c = match action {
                RowAction::Open => Command::Open(hit.path.clone()),
                RowAction::Reveal => Command::Reveal(hit.path.clone()),
                RowAction::CopyPath => Command::CopyText(hit.path.clone()),
                RowAction::CopyName => Command::CopyText(hit.name.clone()),
                RowAction::CopyFolder => Command::CopyText(folder_of(hit.path.as_str())),
            };
            assert(is_row_command(hit@, action, c@));
            add_command(&mut r, c);
        }
        r
    }

    fn press_arrow(&mut self, down: bool, pressed: bool, out: &mut Vec<Command>)
        ensures
            ({
                let (s, c) = if down {
                    old(self)@.after_down(pressed)
                } else {
                    old(self)@.after_up(pressed)
                };
                final(self)@ == s && command_views(final(out)@) == command_views(old(out)@) + c
            }),
    {
        let ghost was = command_views(out@);
        assert(was + Seq::<CommandView>::empty() =~= was);
        if pressed && self.list.results.len() > 0 {
            let turned = self.list.step(down);
            if turned && self.settings.show_preview {
                if let Some(row) = self.list.selected {
                    add_command(out, Command::LoadPreview(row));
                    assert(was.push(CommandView::LoadPreview(row)) =~= was
                        + seq![CommandView::LoadPreview(row)]);
                }
            }
        }
    }

    fn press_enter(&self, pressed: bool, out: &mut Vec<Command>)
        ensures
            command_views(final(out)@) == command_views(old(out)@) + self@.after_enter(pressed),
    {
        assert(command_views(out@) + Seq::<CommandView>::empty() =~= command_views(out@));
        if pressed && self.list.results.len() > 0 {
            let row: usize = match self.list.selected {
                Some(row) => row,
                None => 0,
            };
            self.open_row(row, out);
        }
    }

    fn press_escape(&mut self, pressed: bool, out: &mut Vec<Command>)
        ensures
            final(self)@ == old(self)@.after_escape(pressed).0,
            command_views(final(out)@) == command_views(old(out)@) + old(self)@.after_escape(
                pressed,
            ).1,
    {
        let ghost was = command_views(out@);
        assert(was + Seq::<CommandView>::empty() =~= was);
        if pressed && !self.query.as_str().is_empty() {
            assert(self@.query.len() > 0);
            self.query = String::new();
            assert(self@.query =~= Seq::<char>::empty());
            add_command(out, Command::Search);
            assert(was.push(CommandView::Search) =~= was + seq![CommandView::Search]);
        }
    }

    fn press_copy(&self, pressed: bool, out: &mut Vec<Command>)
        ensures
            command_views(final(out)@) == command_views(old(out)@) + self@.after_copy(pressed),
    {
        let ghost was = command_views(out@);
        assert(was + Seq::<CommandView>::empty() =~= was);
        if let Some(row) = self.list.selected {
            if pressed && row < self.list.results.len() {
                assert(hit_views(self.list.results@)[row as int] == self.list.results@[row as int]@);
                let text = self.list.results[row].path.clone();
                let ghost c = CommandView::CopyText(text@);
                add_command(out, Command::CopyText(text));
                assert(was.push(c) =~= was + seq![c]);
            }
        }
    }

    /// Does what keys ask for.
    pub fn handle_keys(&mut self, k: Keys) -> (r: Vec<Command>)
        ensures
            (final(self)@, command_views(r@)) == old(self)@.after_keys(k),
    {
        let mut r = no_commands();
        if self.show_settings || self.show_help {
            return r;
        }
        self.press_arrow(true, k.down, &mut r);
        self.press_arrow(false, k.up, &mut r);
        self.press_enter(k.enter, &mut r);
        self.press_escape(k.escape, &mut r);
        self.press_copy(k.copy_path, &mut r);
        assert(Seq::<CommandView>::empty() + old(self)@.after_down(k.down).1
            =~= old(self)@.after_down(k.down).1);
        r
    }

    /// Does what the tray asks for.
    pub fn on_tray(&mut self, msg: TrayMsg) -> (r: Vec<Command>)
        ensures
            (final(self)@, command_views(r@)) == old(self)@.after_tray(msg),
    {
        let mut r = no_commands();
        match msg {
            TrayMsg::Show => {
                self.hidden = false;
                add_command(&mut r, Command::ShowWindow);
            },
            TrayMsg::Rescan => {
                self.hidden = false;
                add_command(&mut r, Command::Rescan);
            },
            TrayMsg::Quit => {
                self.quit_requested = true;
                add_command(&mut r, Command::Quit);
            },
        }
        assert(command_views(r@) =~= old(self)@.after_tray(msg).1);
        r
    }

    /// Hides the window that is about to be closed, where the user wants that.
    pub fn on_close(&mut self, has_tray: bool) -> (r: Vec<Command>)
        ensures
            (final(self)@, command_views(r@)) == old(self)@.after_close(has_tray),
    {
        let mut r = no_commands();
        if self.settings.minimize_to_tray && has_tray && !self.quit_requested {
            self.hidden = true;
            add_command(&mut r, Command::HideWindow);
        }
        assert(command_views(r@) =~= old(self)@.after_close(has_tray).1);
        r
    }

    /// Notes how many objects there are: while a scan runs, as many as it has
    /// come across, otherwise as many as the index holds, if that is known.
    pub fn note_count(&mut self, scanning: bool, progress: usize, live: Option<usize>)
        ensures
            final(self)@ == (SessionView {
                index_count: if scanning {
                    progress
                } else {
                    match live {
                        Some(n) => n,
                        None => old(self)@.index_count,
                    }
                },
                ..old(self)@
            }),
    {
        if scanning {
            self.index_count = progress;
        } else if let Some(n) = live {
            self.index_count = n;
        }
    }
}

// ---------------------------------------------------------------------------
// Refreshing and launching
// ---------------------------------------------------------------------------

/// Milliseconds between two refreshes, so that a fast scan cannot drown the
/// window in them.
pub const REFRESH_MS: u64 = 400;

/// Milliseconds after which a window with changes to show is drawn again.
pub const DIRTY_REPAINT_MS: u64 = 200;

/// Milliseconds after which a window is drawn again while a scan runs.
pub const SCAN_REPAINT_MS: u64 = 150;

/// What a window does about changes of the index.
#[derive(Clone, Copy, Debug, PartialEq, Eq, Structural)]
pub struct Upkeep {
    /// Count again and run the query again.
    pub refresh: bool,
    /// Draw again after so many milliseconds, at the latest.
    pub repaint_ms: Option<u64>,
}

/// What a window does about changes of the index. A hidden window cannot be
/// drawn, so nothing is scheduled for it.
pub fn upkeep(since_last_ms: Option<u64>, dirty: bool, scanning: bool, hidden: bool) -> (r: Upkeep)
    ensures
        r.refresh == (dirty && (since_last_ms matches Some(ms) ==> ms >= 400)),
        r.repaint_ms == (if hidden {
            None
        } else if scanning {
            Some(150u64)
        } else if dirty && !r.refresh {
            Some(200u64)
        } else {
            None
        }),
{
    let due = match since_last_ms {
        Some(ms) => ms >= REFRESH_MS,
        None => true,
    };
    let refresh = due && dirty;
    let repaint_ms = if hidden {
        None
    } else if scanning {
        Some(SCAN_REPAINT_MS)
    } else if dirty && !refresh {
        Some(DIRTY_REPAINT_MS)
    } else {
        None
    };
    Upkeep { refresh, repaint_ms }
}

/// How a launch comes to its index.
#[derive(Clone, Copy, Debug, PartialEq, Eq, Structural)]
pub enum Startup {
    /// There is no saved index of these roots: stream a scan into an empty one.
    Build,
    /// The saved index is shown, and dealt with as planned.
    Saved(LaunchPlan),
}

/// How a launch comes to its index, given the saved one.
pub open spec fn startup_of(
    saved: Option<IndexView>,
    roots: Seq<Seq<char>>,
    now: i64,
    auto_refresh_hours: u32,
) -> Startup {
    match saved {
        Some(v) if v.roots == roots => Startup::Saved(
            plan_of(v.complete, v.scanned_at as int, now as int, auto_refresh_hours as int),
        ),
        _ => Startup::Build,
    }
}

/// How a launch comes to its index, given the saved one.
pub fn startup(saved: Option<&Index>, roots: &[String], now: i64, auto_refresh_hours: u32) -> (r:
    Startup)
    ensures
        r == startup_of(
            match saved {
                Some(index) => Some(index@),
                None => None,
            },
            views(roots@),
            now,
            auto_refresh_hours,
        ),
{
    match saved {
        Some(index) => if same_list(index.roots.as_slice(), roots) {
            Startup::Saved(launch_plan(index.complete, index.scanned_at, now, auto_refresh_hours))
        } else {
            Startup::Build
        },
        None => Startup::Build,
    }
}

// ---------------------------------------------------------------------------
// Texts
// ---------------------------------------------------------------------------

/// What is shown in place of results until there is an index.
pub open spec fn splash_text(v: SessionView, scanning: bool, progress: nat) -> Option<Seq<char>> {
    if v.index_count == 0 && v.list.results.len() == 0 && v.query.len() == 0 {
        Some(
            if scanning {
                "Indexing your drives\u{2026} "@ + grouped(progress)
            } else {
                "Loading index\u{2026}"@
            },
        )
    } else {
        None
    }
}

/// How many results there are, and how long the search took.
pub open spec fn results_text(v: ListView) -> Seq<char> {
    if v.truncated {
        grouped(v.total as nat) + " results (showing "@ + grouped(v.results.len()) + ") in "@
            + decimal(v.search_ms as nat) + " ms"@
    } else {
        grouped(v.total as nat) + " results in "@ + decimal(v.search_ms as nat) + " ms"@
    }
}

impl Session {
    /// What is shown in place of results until there is an index.
    pub fn splash(&self, scanning: bool, progress: usize) -> (r: Option<String>)
        ensures
            crate::text::opt_text(r) == splash_text(self@, scanning, progress as nat),
    {
        if self.index_count == 0 && self.list.results.len() == 0 && self.query.as_str().is_empty() {
            assert(self@.query.len() == 0);
            if scanning {
                let mut text = "Indexing your drives\u{2026} ".to_owned();
                let n = thousands(progress);
                text.append(n.as_str());
                Some(text)
            } else {
                Some("Loading index\u{2026}".to_owned())
            }
        } else {
            None
        }
    }

    /// How many objects are indexed.
    pub fn count_text(&self) -> (r: String)
        ensures
            r@ == grouped(self@.index_count as nat) + " objects indexed"@,
    {
        let mut r = thousands(self.index_count);
        r.append(" objects indexed");
        r
    }

    /// How many results there are, and how long the search took.
    pub fn results_line(&self) -> (r: String)
        ensures
            r@ == results_text(self@.list),
    {
        let mut r = thousands(self.list.total);
        if self.list.truncated {
            r.append(" results (showing ");
            let shown = thousands(self.list.results.len());
            r.append(shown.as_str());
            r.append(") in ");
        } else {
            r.append(" results in ");
        }
        push_decimal(&mut r, self.list.search_ms as u128);
        r.append(" ms");
        r
    }
}

/// How far a scan has got.
pub fn progress_text(progress: usize) -> (r: String)
    ensures
        r@ == "Indexing\u{2026} "@ + grouped(progress as nat) + " entries"@,
{
    let mut r = "Indexing\u{2026} ".to_owned();
    let n = thousands(progress);
    r.append(n.as_str());
    r.append(" entries");
    r
}

/// The icon of a file.
pub open spec fn icon_of(name: Seq<char>) -> Seq<char> {
    if Category::Images.holds(name, false) {
        "\u{1f5bc}"@
    } else if Category::Audio.holds(name, false) {
        "\u{1f3b5}"@
    } else if Category::Video.holds(name, false) {
        "\u{1f3ac}"@
    } else if Category::Archives.holds(name, false) {
        "\u{1f4e6}"@
    } else if Category::Code.holds(name, false) {
        "\u{1f4dc}"@
    } else if Category::Executables.holds(name, false) {
        "\u{2699}"@
    } else {
        "\u{1f4c4}"@
    }
}

pub fn file_icon(name: &str) -> (r: &'static str)
    ensures
        r@ == icon_of(name@),
{
    if Category::Images.matches(name, false) {
        "\u{1f5bc}"
    } else if Category::Audio.matches(name, false) {
        "\u{1f3b5}"
    } else if Category::Video.matches(name, false) {
        "\u{1f3ac}"
    } else if Category::Archives.matches(name, false) {
        "\u{1f4e6}"
    } else if Category::Code.matches(name, false) {
        "\u{1f4dc}"
    } else if Category::Executables.matches(name, false) {
        "\u{2699}"
    } else {
        "\u{1f4c4}"
    }
}

/// The texts of a row of the table.
pub struct RowText {
    pub name: String,
    pub path: String,
    /// Folders show no size.
    pub size: Option<String>,
    pub modified: String,
    /// The matching line, where there is one.
    pub line: Option<String>,
}

#[verifier::ext_equal]
pub struct RowView {
    pub name: Seq<char>,
    pub path: Seq<char>,
    pub size: Option<Seq<char>>,
    pub modified: Seq<char>,
    pub line: Option<Seq<char>>,
}

impl View for RowText {
    type V = RowView;

    open spec fn view(&self) -> RowView {
        RowView {
            name: self.name@,
            path: self.path@,
            size: crate::text::opt_text(self.size),
            modified: self.modified@,
            line: crate::text::opt_text(self.line),
        }
    }
}

/// The texts of a hit's row, given how its date is shown.
pub open spec fn row_texts(h: HitView, date: Seq<char>) -> RowView {
    RowView {
        name: (if h.dir {
            "\u{1f4c1}"@
        } else {
            icon_of(h.name)
        }) + " "@ + h.name,
        path: h.path,
        size: if h.dir {
            None
        } else {
            Some(size_text(h.size as nat))
        },
        modified: date,
        line: match h.content_line {
            Some((n, line)) => Some(decimal(n as nat) + ": "@ + line),
            None => None,
        },
    }
}

/// The texts of a hit's row, given how its date is shown.
pub fn row_dated(hit: &Hit, date: String) -> (r: RowText)
    ensures
        r@ == row_texts(hit@, date@),
{
    let icon = if hit.is_dir {
        "\u{1f4c1}"
    } else {
        file_icon(hit.name.as_str())
    };
    let mut name = icon.to_owned();
    name.append(" ");
    name.append(hit.name.as_str());
    let size = if hit.is_dir {
        None
    } else {
        Some(human_size(hit.size))
    };
    let line = match &hit.content_line {
        Some((n, line)) => {
            let mut text = String::new();
            push_decimal(&mut text, *n as u128);
            assert(text@ =~= decimal(*n as nat));
            text.append(": ");
            text.append(line.as_str());
            Some(text)
        },
        None => None,
    };
    RowText { name, path: hit.path.clone(), size, modified: date, line }
}

/// The texts of a hit's row.
pub fn row_text(hit: &Hit) -> (r: RowText)
    ensures
        exists|date: Seq<char>|
            shows_date(hit@.modified, date) && r@ == #[trigger] row_texts(hit@, date),
{
    let date = human_date(hit.modified);
    let ghost d = date@;
    let r = row_dated(hit, date);
    assert(r@ == row_texts(hit@, d));
    r
}

/// The size and date of a hit, and its matching line, as the preview pane shows
/// them above the preview.
pub open spec fn head_texts(h: HitView, date: Seq<char>) -> (Seq<char>, Option<Seq<char>>) {
    (
        size_text(h.size as nat) + " \u{2022} "@ + date,
        match h.content_line {
            Some((n, line)) => Some("line "@ + decimal(n as nat) + ": "@ + line),
            None => None,
        },
    )
}

/// The size and date of a hit, and its matching line, given how its date is
/// shown.
pub fn head_dated(hit: &Hit, date: &str) -> (r: (String, Option<String>))
    ensures
        (r.0@, crate::text::opt_text(r.1)) == head_texts(hit@, date@),
{
    let mut facts = human_size(hit.size);
    facts.append(" \u{2022} ");
    facts.append(date);
    let line = match &hit.content_line {
        Some((n, line)) => {
            let mut text = "line ".to_owned();
            push_decimal(&mut text, *n as u128);
            text.append(": ");
            text.append(line.as_str());
            Some(text)
        },
        None => None,
    };
    (facts, line)
}

/// The size and date of a hit, and its matching line.
pub fn head_text(hit: &Hit) -> (r: (String, Option<String>))
    ensures
        exists|date: Seq<char>|
            shows_date(hit@.modified, date) && (r.0@, crate::text::opt_text(r.1))
                == #[trigger] head_texts(hit@, date),
{
    let date = human_date(hit.modified);
    let r = head_dated(hit, date.as_str());
    assert((r.0@, crate::text::opt_text(r.1)) == head_texts(hit@, date@));
    r
}

/// The one argument that makes Explorer select a file: it wants the path quoted.
pub fn explorer_argument(path: &str) -> (r: String)
    ensures
        r@ == "/select,\""@ + path@ + "\""@,
{
    let mut r = "/select,\"".to_owned();
    r.append(path);
    r.append("\"");
    r
}

// ---------------------------------------------------------------------------
// Laws
// ---------------------------------------------------------------------------

/// Once quitting was asked for, closing the window is not turned into hiding it.
pub proof fn law_quit_is_not_swallowed(v: SessionView, has_tray: bool)
    ensures
        v.after_tray(TrayMsg::Quit).0.after_close(has_tray).1 == Seq::<CommandView>::empty(),
        !v.hidden ==> !v.after_tray(TrayMsg::Quit).0.after_close(has_tray).0.hidden,
{
}

/// Keys change neither the settings nor the results, and never leave a row
/// selected that is not listed.
pub proof fn law_keys_keep_the_results(v: SessionView, k: Keys)
    requires
        v.list.selected matches Some(row) ==> row < v.list.results.len(),
    ensures
        v.after_keys(k).0.settings == v.settings,
        v.after_keys(k).0.list.results == v.list.results,
        v.after_keys(k).0.list.selected matches Some(row) ==> row < v.list.results.len(),
{
}

/// Clicking the header of the sorted column twice comes back to the same order.
pub proof fn law_second_click_turns_back(v: ListView, key: crate::results::SortKey)
    requires
        v.sort == key,
    ensures
        v.with_key(key).with_key(key) == v,
{
}

/// A launch scans nothing where a build of the same roots has been completed and
/// refreshing is off.
pub proof fn law_completed_index_is_used_as_it_is(
    v: IndexView,
    roots: Seq<Seq<char>>,
    now: i64,
)
    requires
        v.roots == roots,
        v.complete,
    ensures
        startup_of(Some(v), roots, now, 0) == Startup::Saved(LaunchPlan::UseAsIs),
{
}

/// Once a build is complete and saved, a later launch loads it and scans nothing,
/// as long as refreshing is off: what is read back is an index of the same roots
/// with the same entries.
pub proof fn law_saved_build_is_used_at_launch(
    v: IndexView,
    read: StoredView,
    encoded: spec_fn(StoredView) -> Seq<u8>,
    now: i64,
)
    requires
        v.wf(),
        v.complete,
        forall|s: StoredView, t: StoredView| #[trigger] encoded(s) == #[trigger] encoded(t) ==> s
            == t,
        framed(encoded(read)) == framed(encoded(stored(v))),
    ensures
        restorable(read),
        restored(read).entries == v.entries,
        startup_of(Some(restored(read)), v.roots, now, 0) == Startup::Saved(LaunchPlan::UseAsIs),
{
    law_stored_index_is_restored(v, read, encoded);
}

/// No key pressed.
pub open spec fn no_keys() -> Keys {
    Keys { down: false, up: false, enter: false, escape: false, copy_path: false }
}

/// Whether an open dialog keeps the keys to itself.
pub open spec fn in_dialog(v: SessionView) -> bool {
    v.show_settings || v.show_help
}

/// The arrow keys move the selection by one row and stop at the ends; with nothing
/// selected they select the first row. The list scrolls there, and the preview of
/// that row is loaded where it is shown and was of another entry.
pub proof fn law_arrow_keys_move_by_one_row(v: SessionView, down: bool)
    requires
        !in_dialog(v),
        v.list.results.len() > 0,
        v.list.results.len() <= usize::MAX,
        v.list.selected matches Some(row) ==> row < v.list.results.len(),
    ensures
        ({
            let (now, c) = v.after_keys(Keys { down, up: !down, ..no_keys() });
            let row = now.list.selected->0;
            let last = v.list.results.len() - 1;
            &&& now.list.selected is Some && row < v.list.results.len()
            &&& v.list.selected is None ==> row == 0
            &&& v.list.selected matches Some(s) ==> {
                &&& down && s < last ==> row == s + 1
                &&& down && s == last ==> row == last
                &&& !down && s > 0 ==> row == s - 1
                &&& !down && s == 0 ==> row == 0
            }
            &&& now.list.scroll_to_selected
            &&& now.list.preview_for == Some(v.list.results[row as int].idx)
            &&& now.query == v.query
            &&& v.settings.show_preview && v.list.preview_for != Some(
                v.list.results[row as int].idx,
            ) ==> c == seq![CommandView::LoadPreview(row)]
            &&& !v.settings.show_preview || v.list.preview_for == Some(
                v.list.results[row as int].idx,
            ) ==> c.len() == 0
        }),
{
    let e = Seq::<CommandView>::empty();
    let a = v.after_down(down).1;
    let b = v.after_down(down).0.after_up(!down).1;
    assert(a + b + e + e + e =~= a + b);
    if down {
        assert(a + e =~= a);
    } else {
        assert(e + b =~= b);
    }
}

/// Enter opens the selected row, or the first where none is selected. Copying puts
/// the path of the selected row on the clipboard. Neither changes anything else.
pub proof fn law_enter_opens_the_selected_row(v: SessionView)
    requires
        !in_dialog(v),
        v.list.selected matches Some(row) ==> row < v.list.results.len(),
    ensures
        ({
            let (now, c) = v.after_keys(Keys { enter: true, ..no_keys() });
            &&& now == v
            &&& v.list.results.len() == 0 ==> c.len() == 0
            &&& v.list.results.len() > 0 && v.list.selected is None ==> c == seq![
                CommandView::Open(v.list.results[0].path),
            ]
            &&& v.list.selected matches Some(row) ==> c == seq![
                CommandView::Open(v.list.results[row as int].path),
            ]
        }),
        ({
            let (now, c) = v.after_keys(Keys { copy_path: true, ..no_keys() });
            &&& now == v
            &&& v.list.selected is None ==> c.len() == 0
            &&& v.list.selected matches Some(row) ==> c == seq![
                CommandView::CopyText(v.list.results[row as int].path),
            ]
        }),
{
    let e = Seq::<CommandView>::empty();
    let a = v.after_enter(true);
    let b = v.after_copy(true);
    assert(e + e + a + e + e =~= a);
    assert(e + e + e + e + b =~= b);
}

/// Escape clears the query and searches again, and does nothing where there is no
/// query. An open dialog keeps all keys to itself.
pub proof fn law_escape_clears_the_query(v: SessionView, k: Keys)
    ensures
        !in_dialog(v) ==> {
            let (now, c) = v.after_keys(Keys { escape: true, ..no_keys() });
            &&& now.query.len() == 0
            &&& now == (SessionView { query: now.query, ..v })
            &&& v.query.len() > 0 ==> c == seq![CommandView::Search]
            &&& v.query.len() == 0 ==> c.len() == 0 && now == v
        },
        v.show_settings || v.show_help ==> v.after_keys(k) == (v, Seq::<CommandView>::empty()),
        !in_dialog(v) ==> v.after_keys(no_keys()) == (v, Seq::<CommandView>::empty()),
{
    let e = Seq::<CommandView>::empty();
    let a = v.after_escape(true).1;
    assert(e + e + e + a + e =~= a);
    assert(e + e + e + e + e =~= e);
}

/// What the tray asks for is done: showing shows the window, rescanning shows it
/// and scans, quitting quits. Closing hides the window exactly when the user wants
/// that, there is a tray, and quitting was not asked for.
pub proof fn law_tray_and_closing(v: SessionView, has_tray: bool)
    ensures
        ({
            let (now, c) = v.after_tray(TrayMsg::Show);
            !now.hidden && c == seq![CommandView::ShowWindow] && now == (SessionView {
                hidden: false,
                ..v
            })
        }),
        ({
            let (now, c) = v.after_tray(TrayMsg::Rescan);
            !now.hidden && c == seq![CommandView::Rescan] && now == (SessionView {
                hidden: false,
                ..v
            })
        }),
        ({
            let (now, c) = v.after_tray(TrayMsg::Quit);
            now.quit_requested && c == seq![CommandView::Quit] && now == (SessionView {
                quit_requested: true,
                ..v
            })
        }),
        ({
            let (now, c) = v.after_close(has_tray);
            if v.settings.minimize_to_tray && has_tray && !v.quit_requested {
                now == (SessionView { hidden: true, ..v }) && c == seq![CommandView::HideWindow]
            } else {
                now == v && c.len() == 0
            }
        }),
{
}

/// Selecting a row selects it, turns the preview pane to its entry, and loads the
/// preview where it is shown and was of another entry.
pub proof fn law_selecting_turns_the_preview(v: SessionView, row: usize)
    requires
        row < v.list.results.len(),
    ensures
        ({
            let (now, c) = v.selecting(row);
            let idx = v.list.results[row as int].idx;
            &&& now.list.selected == Some(row)
            &&& now.list.preview_for == Some(idx)
            &&& now.list.results == v.list.results
            &&& v.settings.show_preview && v.list.preview_for != Some(idx) ==> c == seq![
                CommandView::LoadPreview(row),
            ]
            &&& !v.settings.show_preview || v.list.preview_for == Some(idx) ==> c.len() == 0
        }),
        v.opening(row) == seq![CommandView::Open(v.list.results[row as int].path)],
{
}

/// A launch builds an index where none is saved or the saved one is of other roots.
/// A saved one that was not completed is resumed, and one that was is scanned again
/// only where that is wanted after some hours, and more have gone by.
pub proof fn law_launch_goes_by_the_saved_index(
    v: IndexView,
    roots: Seq<Seq<char>>,
    now: i64,
    hours: u32,
)
    ensures
        startup_of(None, roots, now, hours) == Startup::Build,
        v.roots != roots ==> startup_of(Some(v), roots, now, hours) == Startup::Build,
        v.roots == roots && !v.complete ==> startup_of(Some(v), roots, now, hours)
            == Startup::Saved(LaunchPlan::Resume),
        v.roots == roots && v.complete && hours > 0 && now - v.scanned_at > hours * 3600
            ==> startup_of(Some(v), roots, now, hours) == Startup::Saved(LaunchPlan::Refresh),
        v.roots == roots && v.complete && (hours == 0 || now - v.scanned_at <= hours * 3600)
            ==> startup_of(Some(v), roots, now, hours) == Startup::Saved(LaunchPlan::UseAsIs),
{
}

/// The row of a hit shows its name, its path, the size of a file but none of a
/// folder, and the matching line with its number.
pub proof fn law_rows_show_their_hit(h: HitView, date: Seq<char>)
    ensures
        ({
            let r = row_texts(h, date);
            &&& r.name.len() > h.name.len()
            &&& r.name.skip(r.name.len() - h.name.len()) == h.name
            &&& r.path == h.path
            &&& r.modified == date
            &&& h.dir ==> r.size is None
            &&& !h.dir ==> r.size == Some(size_text(h.size as nat))
            &&& h.content_line is None ==> r.line is None
            &&& h.content_line matches Some((n, line)) ==> (r.line matches Some(text)
                && decimal(n as nat).is_prefix_of(text) && text.len() >= line.len() && text.skip(
                text.len() - line.len(),
            ) == line)
        }),
{
    reveal_strlit(" ");
    let r = row_texts(h, date);
    assert(r.name.skip(r.name.len() - h.name.len()) =~= h.name);
    if let Some((n, line)) = h.content_line {
        let text = r.line->0;
        assert(text.skip(text.len() - line.len()) =~= line);
        assert(decimal(n as nat) =~= text.subrange(0, decimal(n as nat).len() as int));
    }
}

/// Until there is an index or something to show, a note stands in place of the
/// results. While a scan runs it ends in the number of what was found so far.
pub proof fn law_splash_shows_until_there_is_something(
    v: SessionView,
    scanning: bool,
    progress: nat,
)
    ensures
        splash_text(v, scanning, progress) is Some <==> v.index_count == 0 && v.list.results.len()
            == 0 && v.query.len() == 0,
        splash_text(v, scanning, progress) matches Some(text) ==> (scanning ==> text.len()
            >= grouped(progress).len() && text.skip(text.len() - grouped(progress).len())
            == grouped(progress)),
{
    if let Some(text) = splash_text(v, scanning, progress) {
        if scanning {
            assert(text.skip(text.len() - grouped(progress).len()) =~= grouped(progress));
        }
    }
}

/// The line below the results begins with the number of matches, and tells how many
/// of them are shown where that is not all.
pub proof fn law_results_line_tells_the_numbers(v: ListView)
    ensures
        grouped(v.total as nat).is_prefix_of(results_text(v)),
        v.truncated ==> occurs(
            results_text(v),
            "(showing "@ + grouped(v.results.len()) + ")"@,
        ),
        occurs(results_text(v), " in "@ + decimal(v.search_ms as nat) + " ms"@),
{
    reveal_strlit(" results (showing ");
    reveal_strlit(") in ");
    reveal_strlit(" results in ");
    reveal_strlit("(showing ");
    reveal_strlit(")");
    reveal_strlit(" in ");
    reveal_strlit(" ms");
    let text = results_text(v);
    let total = grouped(v.total as nat);
    let ms = decimal(v.search_ms as nat);
    assert(total =~= text.subrange(0, total.len() as int));
    let end = " in "@ + ms + " ms"@;
    let at = text.len() - end.len();
    assert(text.subrange(at, at + end.len()) =~= end);
    assert(occurs_at(text, end, at));
    if v.truncated {
        let mid = "(showing "@ + grouped(v.results.len()) + ")"@;
        let from = total.len() as int + 9;
        assert(text.subrange(from, from + mid.len()) =~= mid);
        assert(occurs_at(text, mid, from));
    }
}

/// Above a preview stand the size and the date of the file, and the matching line
/// with its number.
pub proof fn law_heads_show_size_and_date(h: HitView, date: Seq<char>)
    ensures
        ({
            let (facts, line) = head_texts(h, date);
            &&& size_text(h.size as nat).is_prefix_of(facts)
            &&& facts.len() >= date.len() && facts.skip(facts.len() - date.len()) == date
            &&& h.content_line is None <==> line is None
            &&& h.content_line matches Some((n, text)) ==> (line matches Some(shown) && occurs(
                shown,
                decimal(n as nat),
            ) && shown.len() >= text.len() && shown.skip(shown.len() - text.len()) == text)
        }),
{
    let (facts, line) = head_texts(h, date);
    let size = size_text(h.size as nat);
    assert(size =~= facts.subrange(0, size.len() as int));
    assert(facts.skip(facts.len() - date.len()) =~= date);
    if let Some((n, text)) = h.content_line {
        let shown = line->0;
        let number = decimal(n as nat);
        let at = "line "@.len() as int;
        assert(shown.subrange(at, at + number.len()) =~= number);
        assert(occurs_at(shown, number, at));
        assert(shown.skip(shown.len() - text.len()) =~= text);
    }
}

}
