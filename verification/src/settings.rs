//! User settings, and the drafts of them that are edited as text.

use crate::paths::{free_of, lemma_split_join};
use crate::query::MatchMode;
use crate::text::{
    char_views, from_chars, is_space, join, joined, law_trimming_takes_the_white_space, split,
    split_on, to_chars, trim, trimmed, views,
};
use crate::util::{default_exclusion_list, default_exclusions, default_roots, patterns};
use vstd::prelude::*;
use vstd::string::*;

verus! {

#[derive(Clone, Copy, Debug, PartialEq, Eq, Structural)]
pub enum ThemePreset {
    /// Warm dark grays and browns (default).
    Graphite,
    /// Pure blacks.
    Carbon,
    /// Dark navy.
    Navy,
}

impl Default for ThemePreset {
    fn default() -> (r: Self)
        ensures
            r == ThemePreset::Graphite,
    {
        ThemePreset::Graphite
    }
}

impl ThemePreset {
    pub const ALL: [ThemePreset; 3] = [
        ThemePreset::Graphite,
        ThemePreset::Carbon,
        ThemePreset::Navy,
    ];

    /// The label shown for a theme.
    pub open spec fn label_text(self) -> Seq<char> {
        match self {
            ThemePreset::Graphite => "Graphite"@,
            ThemePreset::Carbon => "Carbon"@,
            ThemePreset::Navy => "Navy"@,
        }
    }

    pub fn label(self) -> (r: &'static str)
        ensures
            r@ == self.label_text(),
    {
        match self {
            ThemePreset::Graphite => "Graphite",
            ThemePreset::Carbon => "Carbon",
            ThemePreset::Navy => "Navy",
        }
    }
}

#[derive(Clone, Copy, Debug, PartialEq, Eq, Structural)]
pub enum AccentColor {
    Blue,
    Green,
    Amber,
    Violet,
}

impl Default for AccentColor {
    fn default() -> (r: Self)
        ensures
            r == AccentColor::Blue,
    {
        AccentColor::Blue
    }
}

impl AccentColor {
    pub const ALL: [AccentColor; 4] = [
        AccentColor::Blue,
        AccentColor::Green,
        AccentColor::Amber,
        AccentColor::Violet,
    ];

    /// The label shown for a color.
    pub open spec fn label_text(self) -> Seq<char> {
        match self {
            AccentColor::Blue => "Blue"@,
            AccentColor::Green => "Green"@,
            AccentColor::Amber => "Amber"@,
            AccentColor::Violet => "Violet"@,
        }
    }

    pub fn label(self) -> (r: &'static str)
        ensures
            r@ == self.label_text(),
    {
        match self {
            AccentColor::Blue => "Blue",
            AccentColor::Green => "Green",
            AccentColor::Amber => "Amber",
            AccentColor::Violet => "Violet",
        }
    }
}

/// What the user can set, but for the zoom factor of the window, which is a
/// matter of drawing.
#[derive(Clone, Debug)]
pub struct Settings {
    pub theme: ThemePreset,
    pub accent: AccentColor,
    /// "HH:MM" 24h local time for a daily automatic rescan; empty = off.
    pub auto_rescan_time: String,
    pub roots: Vec<String>,
    pub exclusions: Vec<String>,
    pub match_mode: MatchMode,
    pub case_sensitive: bool,
    pub max_results: usize,
    pub show_preview: bool,
    pub watch_filesystem: bool,
    /// Closing the window hides to the system tray instead of quitting.
    pub minimize_to_tray: bool,
}

#[verifier::ext_equal]
pub struct SettingsView {
    pub theme: ThemePreset,
    pub accent: AccentColor,
    pub auto_rescan_time: Seq<char>,
    pub roots: Seq<Seq<char>>,
    pub exclusions: Seq<Seq<char>>,
    pub match_mode: MatchMode,
    pub case_sensitive: bool,
    pub max_results: usize,
    pub show_preview: bool,
    pub watch_filesystem: bool,
    pub minimize_to_tray: bool,
}

impl View for Settings {
    type V = SettingsView;

    open spec fn view(&self) -> SettingsView {
        SettingsView {
            theme: self.theme,
            accent: self.accent,
            auto_rescan_time: self.auto_rescan_time@,
            roots: views(self.roots@),
            exclusions: views(self.exclusions@),
            match_mode: self.match_mode,
            case_sensitive: self.case_sensitive,
            max_results: self.max_results,
            show_preview: self.show_preview,
            watch_filesystem: self.watch_filesystem,
            minimize_to_tray: self.minimize_to_tray,
        }
    }
}

/// The settings of a first launch.
pub open spec fn default_settings(
    roots: Seq<Seq<char>>,
    exclusions: Seq<Seq<char>>,
) -> SettingsView {
    SettingsView {
        theme: ThemePreset::Graphite,
        accent: AccentColor::Blue,
        auto_rescan_time: Seq::empty(),
        roots,
        exclusions,
        match_mode: MatchMode::Substring,
        case_sensitive: false,
        max_results: 5_000,
        show_preview: true,
        watch_filesystem: true,
        minimize_to_tray: true,
    }
}

/// The lines of a draft that hold more than white space, without the white
/// space around them.
pub open spec fn draft_lines(draft: Seq<char>) -> Seq<Seq<char>> {
    patterns(split_on(draft, '\n'))
}

/// The settings after drafts of the roots and the exclusions were applied. Roots
/// are kept where the draft names none.
pub open spec fn with_drafts(
    s: SettingsView,
    roots_draft: Seq<char>,
    exclusions_draft: Seq<char>,
) -> SettingsView {
    SettingsView {
        roots: if draft_lines(roots_draft).len() == 0 {
            s.roots
        } else {
            draft_lines(roots_draft)
        },
        exclusions: draft_lines(exclusions_draft),
        ..s
    }
}

/// The draft of a list: one line for each.
pub fn draft_of(list: &[String]) -> (r: String)
    ensures
        r@ == join(views(list@), seq!['\n']),
{
    proof {
        reveal_strlit("\n");
        assert("\n"@ =~= seq!['\n']);
    }
    joined(list, "\n")
}

/// Reads a draft.
pub fn read_draft(draft: &str) -> (r: Vec<String>)
    ensures
        views(r@) == draft_lines(draft@),
{
    let chars = to_chars(draft);
    let pieces = split(chars.as_slice(), '\n');
    let ghost all = split_on(draft@, '\n');
    let mut r: Vec<String> = Vec::new();
    assert(views(r@) =~= patterns(all.take(0)));
    for i in 0..pieces.len()
        invariant
            char_views(pieces@) == all,
            views(r@) == patterns(all.take(i as int)),
    {
        assert(all.take(i + 1).drop_last() =~= all.take(i as int));
        assert(all.take(i + 1).last() == pieces@[i as int]@);
        let line = trimmed(pieces[i].as_slice());
        if line.len() > 0 {
            let ghost before = r@;
            let text = from_chars(line);
            r.push(text);
            assert(views(r@) =~= views(before).push(text@));
        }
    }
    assert(all.take(all.len() as int) =~= all);
    r
}

impl Settings {
    /// The settings of a first launch on a machine with the given roots.
    pub fn first(roots: Vec<String>) -> (r: Settings)
        ensures
            r@ == default_settings(views(roots@), default_exclusion_list(true)) || r@
                == default_settings(views(roots@), default_exclusion_list(false)),
    {
        let exclusions = default_exclusions();
        let r = Settings {
            theme: ThemePreset::Graphite,
            accent: AccentColor::Blue,
            auto_rescan_time: String::new(),
            roots,
            exclusions,
            match_mode: MatchMode::Substring,
            case_sensitive: false,
            max_results: 5_000,
            show_preview: true,
            watch_filesystem: true,
            minimize_to_tray: true,
        };
        assert(r.auto_rescan_time@ =~= Seq::<char>::empty());
        r
    }

    /// Applies drafts of the roots and the exclusions.
    pub fn apply_drafts(&mut self, roots_draft: &str, exclusions_draft: &str)
        ensures
            final(self)@ == with_drafts(old(self)@, roots_draft@, exclusions_draft@),
    {
        let roots = read_draft(roots_draft);
        if roots.len() > 0 {
            self.roots = roots;
        }
        self.exclusions = read_draft(exclusions_draft);
    }
}

impl Default for Settings {
    /// The settings of a first launch on a machine without a home directory or
    /// drives.
    fn default() -> (r: Self)
        ensures
            r@ == default_settings(seq!["/"@], default_exclusion_list(true)) || r@
                == default_settings(seq!["/"@], default_exclusion_list(false)),
    {
        Settings::first(default_roots(None))
    }
}

/// Whether each text of a list is a line of its own: not blank, without white
/// space around it, and without a line break.
pub open spec fn plain_lines(list: Seq<Seq<char>>) -> bool {
    forall|i: int|
        0 <= i < list.len() ==> (#[trigger] list[i]).len() > 0 && trim(list[i]) == list[i]
            && !list[i].contains('\n')
}

proof fn lemma_patterns_plain(list: Seq<Seq<char>>)
    requires
        plain_lines(list),
    ensures
        patterns(list) == list,
    decreases list.len(),
{
    if list.len() == 0 {
        assert(list =~= Seq::<Seq<char>>::empty());
    } else {
        let front = list.drop_last();
        assert forall|i: int| 0 <= i < front.len() implies (#[trigger] front[i]).len() > 0 && trim(
            front[i],
        ) == front[i] && !front[i].contains('\n') by {
            assert(front[i] == list[i]);
        }
        lemma_patterns_plain(front);
        assert(list[list.len() - 1] == list.last());
        assert(front.push(list.last()) =~= list);
    }
}

/// Reading the draft of a list gives the list back.
pub proof fn law_drafts_read_back(list: Seq<Seq<char>>)
    requires
        plain_lines(list),
    ensures
        draft_lines(join(list, seq!['\n'])) == list,
{
    if list.len() == 0 {
        let none = Seq::<char>::empty();
        assert(join(list, seq!['\n']) =~= none);
        assert(split_on(none, '\n').drop_last() =~= Seq::<Seq<char>>::empty());
        assert(split_on(none, '\n').last() == none);
        assert(trim(none) == none);
        assert(patterns(split_on(none, '\n').drop_last()) == Seq::<Seq<char>>::empty());
        assert(list =~= Seq::<Seq<char>>::empty());
    } else {
        assert(free_of(list, '\n'));
        lemma_split_join(list, '\n');
        lemma_patterns_plain(list);
    }
}

/// Applying unedited drafts leaves the settings as they are.
pub proof fn law_unedited_drafts_change_nothing(s: SettingsView)
    requires
        plain_lines(s.roots),
        plain_lines(s.exclusions),
    ensures
        with_drafts(s, join(s.roots, seq!['\n']), join(s.exclusions, seq!['\n'])) == s,
{
    law_drafts_read_back(s.roots);
    law_drafts_read_back(s.exclusions);
    assert(s.roots.len() == 0 ==> s.roots =~= Seq::<Seq<char>>::empty());
}

/// A draft of roots that is blank leaves the roots as they are. All else that can be
/// set does not depend on the drafts.
pub proof fn law_blank_drafts_keep_the_roots(
    s: SettingsView,
    roots_draft: Seq<char>,
    exclusions_draft: Seq<char>,
)
    requires
        forall|k: int| 0 <= k < roots_draft.len() ==> is_space(#[trigger] roots_draft[k]),
    ensures
        with_drafts(s, roots_draft, exclusions_draft).roots == s.roots,
        with_drafts(s, roots_draft, exclusions_draft) == (SettingsView {
            exclusions: with_drafts(s, roots_draft, exclusions_draft).exclusions,
            ..s
        }),
{
    lemma_blank_pieces(roots_draft);
    lemma_blank_patterns(split_on(roots_draft, '\n'));
}

proof fn lemma_blank_pieces(s: Seq<char>)
    requires
        forall|k: int| 0 <= k < s.len() ==> is_space(#[trigger] s[k]),
    ensures
        split_on(s, '\n').len() > 0,
        forall|i: int, k: int|
            0 <= i < split_on(s, '\n').len() && 0 <= k < split_on(s, '\n')[i].len() ==> is_space(
                #[trigger] split_on(s, '\n')[i][k],
            ),
    decreases s.len(),
{
    if s.len() > 0 {
        let front = s.drop_last();
        assert forall|k: int| 0 <= k < front.len() implies is_space(#[trigger] front[k]) by {
            assert(front[k] == s[k]);
        }
        lemma_blank_pieces(front);
        let before = split_on(front, '\n');
        let now = split_on(s, '\n');
        assert(is_space(s[s.len() - 1]));
        assert forall|i: int, k: int|
            0 <= i < now.len() && 0 <= k < now[i].len() implies is_space(#[trigger] now[i][k]) by {
            if i < before.len() - 1 || s.last() == '\n' {
                if i < before.len() {
                    assert(now[i] == before[i]);
                }
            } else {
                let w = before[before.len() - 1];
                if k < w.len() {
                    assert(now[i][k] == w[k]);
                }
            }
        }
    }
}

proof fn lemma_blank_patterns(list: Seq<Seq<char>>)
    requires
        forall|i: int, k: int|
            0 <= i < list.len() && 0 <= k < list[i].len() ==> is_space(#[trigger] list[i][k]),
    ensures
        patterns(list).len() == 0,
    decreases list.len(),
{
    if list.len() > 0 {
        let front = list.drop_last();
        assert forall|i: int, k: int|
            0 <= i < front.len() && 0 <= k < front[i].len() implies is_space(
            #[trigger] front[i][k],
        ) by {
            assert(front[i] == list[i]);
            assert(is_space(list[i][k]));
        }
        lemma_blank_patterns(front);
        let p = list[list.len() - 1];
        law_trimming_takes_the_white_space(p);
        if trim(p).len() > 0 {
            let (i, j) = choose|i: int, j: int|
                0 <= i <= j <= p.len() && trim(p) == #[trigger] p.subrange(i, j);
            assert(trim(p)[0] == p[i]);
            assert(is_space(list[list.len() - 1][i]));
        }
    }
}

}
