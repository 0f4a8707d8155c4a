//! Query parsing. Supports filter tokens mixed with plain search terms:
//!
//! ```text
//! report 2024 ext:pdf,docx path:projects size:>10mb date:>2024-01-01 type:file content:"todo"
//! ```

use crate::dates::{
    date_named, day_number, is_start_of_day, lemma_start_of_day_bound, parse_date, DAY,
};
use crate::paths::{respell, respelled};
use crate::text::{
    char_views, from_chars, is_space, lower, lower_all, lower_char, lower_text, opt_text,
    space_char, split, split_on, texts, to_chars, trim, trimmed, views,
};
use crate::util::{parse_size, size_of_text};
use vstd::prelude::*;
use vstd::slice::slice_subrange;

verus! {

#[derive(Clone, Copy, Debug, PartialEq, Eq, Structural)]
pub enum MatchMode {
    Substring,
    Fuzzy,
    Regex,
}

impl Default for MatchMode {
    fn default() -> (r: Self)
        ensures
            r == MatchMode::Substring,
    {
        MatchMode::Substring
    }
}

impl MatchMode {
    /// The label shown for a mode.
    pub open spec fn label_text(self) -> Seq<char> {
        match self {
            MatchMode::Substring => "Substring"@,
            MatchMode::Fuzzy => "Fuzzy"@,
            MatchMode::Regex => "Regex"@,
        }
    }

    pub fn label(self) -> (r: &'static str)
        ensures
            r@ == self.label_text(),
    {
        match self {
            MatchMode::Substring => "Substring",
            MatchMode::Fuzzy => "Fuzzy",
            MatchMode::Regex => "Regex",
        }
    }
}

#[derive(Clone, Copy, Debug, PartialEq, Eq, Structural)]
pub enum TypeFilter {
    Any,
    File,
    Folder,
}

impl Default for TypeFilter {
    fn default() -> (r: Self)
        ensures
            r == TypeFilter::Any,
    {
        TypeFilter::Any
    }
}

#[derive(Clone, Debug)]
pub struct SearchSpec {
    pub mode: MatchMode,
    pub case_sensitive: bool,
    /// Plain name terms (all must match the file name).
    pub name_terms: Vec<String>,
    /// Extension whitelist from `ext:`.
    pub exts: Vec<String>,
    /// Substrings that must appear in the full path, from `path:`.
    pub path_terms: Vec<String>,
    pub size_min: Option<u64>,
    pub size_max: Option<u64>,
    pub date_min: Option<i64>,
    pub date_max: Option<i64>,
    pub type_filter: TypeFilter,
    /// Text to look for inside matching files, from `content:`.
    pub content: Option<String>,
}

/// What a search asks for.
#[verifier::ext_equal]
pub struct SpecView {
    pub mode: MatchMode,
    pub case_sensitive: bool,
    pub name_terms: Seq<Seq<char>>,
    pub exts: Seq<Seq<char>>,
    pub path_terms: Seq<Seq<char>>,
    pub size_min: Option<u64>,
    pub size_max: Option<u64>,
    pub date_min: Option<i64>,
    pub date_max: Option<i64>,
    pub type_filter: TypeFilter,
    pub content: Option<Seq<char>>,
}

impl View for SearchSpec {
    type V = SpecView;

    open spec fn view(&self) -> SpecView {
        SpecView {
            mode: self.mode,
            case_sensitive: self.case_sensitive,
            name_terms: views(self.name_terms@),
            exts: views(self.exts@),
            path_terms: views(self.path_terms@),
            size_min: self.size_min,
            size_max: self.size_max,
            date_min: self.date_min,
            date_max: self.date_max,
            type_filter: self.type_filter,
            content: opt_text(self.content),
        }
    }
}

/// A search that asks for nothing in particular.
pub open spec fn blank(mode: MatchMode, case_sensitive: bool) -> SpecView {
    SpecView {
        mode,
        case_sensitive,
        name_terms: Seq::empty(),
        exts: Seq::empty(),
        path_terms: Seq::empty(),
        size_min: None,
        size_max: None,
        date_min: None,
        date_max: None,
        type_filter: TypeFilter::Any,
        content: None,
    }
}

impl SpecView {
    pub open spec fn asks_nothing(self) -> bool {
        self == blank(self.mode, self.case_sensitive)
    }

    /// The search with its path terms taken as those of a platform that separates
    /// the components of a path with a backslash.
    pub open spec fn respelled(self) -> SpecView {
        SpecView {
            path_terms: self.path_terms.map_values(|t: Seq<char>| respelled(t)),
            ..self
        }
    }
}

impl Default for SearchSpec {
    fn default() -> (r: Self)
        ensures
            r@ == blank(MatchMode::Substring, false),
    {
        SearchSpec::blank(MatchMode::Substring, false)
    }
}

impl SearchSpec {
    fn blank(mode: MatchMode, case_sensitive: bool) -> (r: SearchSpec)
        ensures
            r@ == self::blank(mode, case_sensitive),
    {
        let r = SearchSpec {
            mode,
            case_sensitive,
            name_terms: Vec::new(),
            exts: Vec::new(),
            path_terms: Vec::new(),
            size_min: None,
            size_max: None,
            date_min: None,
            date_max: None,
            type_filter: TypeFilter::Any,
            content: None,
        };
        assert(r@ =~= self::blank(mode, case_sensitive));
        r
    }

    /// Whether nothing in particular is asked for.
    pub fn is_empty(&self) -> (r: bool)
        ensures
            r == self@.asks_nothing(),
    {
        let r = self.name_terms.len() == 0 && self.exts.len() == 0 && self.path_terms.len() == 0
            && self.size_min.is_none() && self.size_max.is_none() && self.date_min.is_none()
            && self.date_max.is_none() && self.type_filter == TypeFilter::Any
            && self.content.is_none();
        proof {
            let b = self::blank(self.mode, self.case_sensitive);
            if r {
                assert(self@ =~= b);
            } else if self@ == b {
                assert(self@.name_terms.len() == 0 && self@.exts.len() == 0
                    && self@.path_terms.len() == 0);
            }
        }
        r
    }

    /// Takes the path terms as those of a platform that separates the components
    /// of a path with a backslash.
    pub fn respell_paths(&mut self)
        ensures
            final(self)@ == old(self)@.respelled(),
    {
        let mut terms: Vec<String> = Vec::new();
        let ghost all = views(self.path_terms@);
        for i in 0..self.path_terms.len()
            invariant
                all == views(self.path_terms@),
                views(terms@) == all.take(i as int).map_values(|t: Seq<char>| respelled(t)),
        {
            let term = respell(self.path_terms[i].as_str());
            let ghost before = terms@;
            terms.push(term);
            assert(views(terms@) =~= views(before).push(term@));
            assert(all.take(i + 1) =~= all.take(i as int).push(all[i as int]));
            assert(views(terms@) =~= all.take(i + 1).map_values(|t: Seq<char>| respelled(t)));
        }
        assert(all.take(all.len() as int) =~= all);
        self.path_terms = terms;
    }

    /// Whether full paths have to be looked at.
    pub fn needs_path(&self) -> (r: bool)
        ensures
            r == (self@.path_terms.len() > 0),
    {
        self.path_terms.len() > 0
    }
}

// ---------------------------------------------------------------------------
// Tokens
// ---------------------------------------------------------------------------

/// Where reading has got to: the tokens that are complete, the one being read,
/// and whether a quotation is open.
#[verifier::ext_equal]
pub struct Reading {
    pub done: Seq<Seq<char>>,
    pub current: Seq<char>,
    pub quoted: bool,
}

pub open spec fn reading(s: Seq<char>) -> Reading
    decreases s.len(),
{
    if s.len() == 0 {
        Reading { done: Seq::empty(), current: Seq::empty(), quoted: false }
    } else {
        let b = reading(s.drop_last());
        let c = s.last();
        if c == '"' {
            Reading { quoted: !b.quoted, ..b }
        } else if is_space(c) && !b.quoted {
            if b.current.len() > 0 {
                Reading { done: b.done.push(b.current), current: Seq::empty(), ..b }
            } else {
                b
            }
        } else {
            Reading { current: b.current.push(c), ..b }
        }
    }
}

/// The tokens of a query: separated by white space, except within double quotes,
/// which are dropped.
pub open spec fn tokens(s: Seq<char>) -> Seq<Seq<char>> {
    let r = reading(s);
    if r.current.len() > 0 {
        r.done.push(r.current)
    } else {
        r.done
    }
}

fn tokenize(input: &str) -> (r: Vec<String>)
    ensures
        views(r@) == tokens(input@),
{
    let mut done: Vec<String> = Vec::new();
    let mut current = String::new();
    let mut filled = false;
    let mut quoted = false;
    assert(views(done@) =~= Seq::<Seq<char>>::empty());
    for c in it: input.chars()
        invariant
            it.seq() == input@,
            filled == (current@.len() > 0),
            reading(input@.take(it.index() as int)) == (Reading {
                done: views(done@),
                current: current@,
                quoted,
            }),
    {
        let ghost n = it.index() as int;
        assert(input@.take(n + 1).drop_last() =~= input@.take(n));
        assert(input@.take(n + 1).last() == c);
        if c == '"' {
            quoted = !quoted;
        } else if space_char(c) && !quoted {
            if filled {
                let ghost before = done@;
                let ghost word = current@;
                done.push(current);
                assert(views(done@) =~= views(before).push(word));
                current = String::new();
                filled = false;
            }
        } else {
            current.push(c);
            filled = true;
        }
    }
    assert(input@.take(input@.len() as int) =~= input@);
    if filled {
        let ghost before = done@;
        let ghost word = current@;
        done.push(current);
        assert(views(done@) =~= views(before).push(word));
    }
    done
}

/// Tokens are never empty.
pub proof fn law_tokens_are_not_empty(s: Seq<char>, i: int)
    requires
        0 <= i < tokens(s).len(),
    ensures
        tokens(s)[i].len() > 0,
{
    lemma_done_not_empty(s);
    if i < reading(s).done.len() {
        assert(tokens(s)[i] == reading(s).done[i]);
    }
}

proof fn lemma_done_not_empty(s: Seq<char>)
    ensures
        forall|i: int| 0 <= i < reading(s).done.len() ==> (#[trigger] reading(s).done[i]).len() > 0,
    decreases s.len(),
{
    if s.len() > 0 {
        lemma_done_not_empty(s.drop_last());
        let b = reading(s.drop_last());
        let now = reading(s);
        assert forall|i: int| 0 <= i < now.done.len() implies (#[trigger] now.done[i]).len() > 0 by {
            if i < b.done.len() {
                assert(now.done[i] == b.done[i]);
            }
        }
    }
}

// ---------------------------------------------------------------------------
// Filters
// ---------------------------------------------------------------------------

pub const EXT_PREFIXES: [&'static str; 2] = ["ext:", "e:"];

pub const PATH_PREFIXES: [&'static str; 3] = ["path:", "p:", "in:"];

pub const SIZE_PREFIXES: [&'static str; 2] = ["size:", "s:"];

pub const DATE_PREFIXES: [&'static str; 3] = ["date:", "dm:", "modified:"];

pub const TYPE_PREFIXES: [&'static str; 2] = ["type:", "t:"];

pub const CONTENT_PREFIXES: [&'static str; 3] = ["content:", "c:", "grep:"];

pub const FILE_WORDS: [&'static str; 3] = ["file", "files", "f"];

pub const FOLDER_WORDS: [&'static str; 5] = ["folder", "folders", "dir", "dirs", "d"];

/// What follows the first of the prefixes that a token starts with, ignoring
/// ASCII case; the rest keeps its case.
pub open spec fn after_prefix(token: Seq<char>, prefixes: Seq<Seq<char>>) -> Option<Seq<char>>
    decreases prefixes.len(),
{
    if prefixes.len() == 0 {
        None
    } else if prefixes[0].is_prefix_of(lower_all(token)) {
        Some(token.skip(prefixes[0].len() as int))
    } else {
        after_prefix(token, prefixes.drop_first())
    }
}

/// A token of a query.
pub enum Clause {
    Ext(Seq<char>),
    Path(Seq<char>),
    Size(Seq<char>),
    Date(Seq<char>),
    Type(Seq<char>),
    Content(Seq<char>),
    Name(Seq<char>),
}

/// What a token says, judged by its prefix.
pub open spec fn clause_of(token: Seq<char>) -> Clause {
    if let Some(rest) = after_prefix(token, texts(EXT_PREFIXES@)) {
        Clause::Ext(rest)
    } else if let Some(rest) = after_prefix(token, texts(PATH_PREFIXES@)) {
        Clause::Path(rest)
    } else if let Some(rest) = after_prefix(token, texts(SIZE_PREFIXES@)) {
        Clause::Size(rest)
    } else if let Some(rest) = after_prefix(token, texts(DATE_PREFIXES@)) {
        Clause::Date(rest)
    } else if let Some(rest) = after_prefix(token, texts(TYPE_PREFIXES@)) {
        Clause::Type(rest)
    } else if let Some(rest) = after_prefix(token, texts(CONTENT_PREFIXES@)) {
        Clause::Content(rest)
    } else {
        Clause::Name(token)
    }
}

/// Without leading dots.
pub open spec fn without_dots(s: Seq<char>) -> Seq<char>
    decreases s.len(),
{
    if s.len() > 0 && s[0] == '.' {
        without_dots(s.drop_first())
    } else {
        s
    }
}

/// The extensions in a list of pieces: without white space and leading dots, in
/// lower case, and only those that something is left of.
pub open spec fn exts_in(pieces: Seq<Seq<char>>) -> Seq<Seq<char>>
    decreases pieces.len(),
{
    if pieces.len() == 0 {
        Seq::empty()
    } else {
        let before = exts_in(pieces.drop_last());
        let e = lower_all(without_dots(trim(pieces.last())));
        if e.len() > 0 {
            before.push(e)
        } else {
            before
        }
    }
}

/// Position of the first two dots in a row, or none.
pub open spec fn first_dots(s: Seq<char>) -> Option<nat>
    decreases s.len(),
{
    if s.len() < 2 {
        None
    } else if s[0] == '.' && s[1] == '.' {
        Some(0)
    } else {
        match first_dots(s.drop_first()) {
            Some(n) => Some(n + 1),
            None => None,
        }
    }
}

/// How a filter bounds a value: both ends, from below, from above, or by the
/// value itself.
pub enum Bounds {
    Range(Seq<char>, Seq<char>),
    AtLeast(Seq<char>),
    AtMost(Seq<char>),
    Near(Seq<char>),
}

/// Reads `lo..hi`, `>v`, `>=v`, `<v`, `<=v` or `v`.
pub open spec fn bounds_of(s: Seq<char>) -> Bounds {
    if let Some(n) = first_dots(s) {
        Bounds::Range(s.take(n as int), s.skip(n as int + 2))
    } else if s.len() > 0 && s[0] == '>' {
        Bounds::AtLeast(
            s.skip(
                if s.len() > 1 && s[1] == '=' {
                    2
                } else {
                    1
                },
            ),
        )
    } else if s.len() > 0 && s[0] == '<' {
        Bounds::AtMost(
            s.skip(
                if s.len() > 1 && s[1] == '=' {
                    2
                } else {
                    1
                },
            ),
        )
    } else {
        Bounds::Near(s)
    }
}

/// The sum, or the largest number where it does not fit.
pub open spec fn capped_sum(a: int, b: int) -> u64 {
    if a + b > u64::MAX {
        u64::MAX
    } else {
        (a + b) as u64
    }
}

/// The search with a size filter. A bare size means within a tenth either way; an
/// unreadable one changes nothing.
pub open spec fn with_size(v: SpecView, rest: Seq<char>) -> SpecView {
    match bounds_of(rest) {
        Bounds::Range(lo, hi) => SpecView {
            size_min: size_of_text(lo),
            size_max: size_of_text(hi),
            ..v
        },
        Bounds::AtLeast(x) => SpecView { size_min: size_of_text(x), ..v },
        Bounds::AtMost(x) => SpecView { size_max: size_of_text(x), ..v },
        Bounds::Near(x) => match size_of_text(x) {
            Some(n) => SpecView {
                size_min: Some((n - n / 10) as u64),
                size_max: Some(capped_sum(n as int, (n / 10) as int)),
                ..v
            },
            None => v,
        },
    }
}

/// A day later.
pub open spec fn day_after(t: i64) -> i64 {
    if t > i64::MAX - DAY {
        i64::MAX
    } else {
        (t + DAY) as i64
    }
}

/// The search with a date filter, given the instants at which the named days
/// start. The last day of a range counts whole; a bare date means that day.
pub open spec fn with_dates(
    v: SpecView,
    rest: Seq<char>,
    first: Option<i64>,
    second: Option<i64>,
) -> SpecView {
    match bounds_of(rest) {
        Bounds::Range(_, _) => SpecView {
            date_min: first,
            date_max: match second {
                Some(t) => Some(day_after(t)),
                None => None,
            },
            ..v
        },
        Bounds::AtLeast(_) => SpecView { date_min: first, ..v },
        Bounds::AtMost(_) => SpecView { date_max: first, ..v },
        Bounds::Near(_) => match first {
            Some(t) => SpecView { date_min: Some(t), date_max: Some(day_after(t)), ..v },
            None => v,
        },
    }
}

/// Whether `first` and `second` are possible instants for the days that a date
/// filter names; only a range has a second day.
pub open spec fn dates_fit(rest: Seq<char>, first: Option<i64>, second: Option<i64>) -> bool {
    match bounds_of(rest) {
        Bounds::Range(lo, hi) => is_start_of_day(lo, first) && is_start_of_day(hi, second),
        Bounds::AtLeast(x) => is_start_of_day(x, first) && second is None,
        Bounds::AtMost(x) => is_start_of_day(x, first) && second is None,
        Bounds::Near(x) => is_start_of_day(x, first) && second is None,
    }
}

/// The search with one more token. Proofs unfold it where they need to.
#[verifier::opaque]
pub open spec fn with_token(
    v: SpecView,
    token: Seq<char>,
    first: Option<i64>,
    second: Option<i64>,
) -> SpecView {
    match clause_of(token) {
        Clause::Ext(rest) => SpecView { exts: v.exts + exts_in(split_on(rest, ',')), ..v },
        Clause::Path(rest) => if rest.len() > 0 {
            SpecView { path_terms: v.path_terms.push(rest), ..v }
        } else {
            v
        },
        Clause::Size(rest) => with_size(v, rest),
        Clause::Date(rest) => with_dates(v, rest, first, second),
        Clause::Type(rest) => if texts(FILE_WORDS@).contains(lower_all(rest)) {
            SpecView { type_filter: TypeFilter::File, ..v }
        } else if texts(FOLDER_WORDS@).contains(lower_all(rest)) {
            SpecView { type_filter: TypeFilter::Folder, ..v }
        } else {
            v
        },
        Clause::Content(rest) => if rest.len() > 0 {
            SpecView { content: Some(rest), ..v }
        } else {
            v
        },
        Clause::Name(name) => SpecView { name_terms: v.name_terms.push(name), ..v },
    }
}

/// The search with all tokens, given the instants for each.
pub open spec fn with_tokens(
    v: SpecView,
    list: Seq<Seq<char>>,
    days: Seq<(Option<i64>, Option<i64>)>,
) -> SpecView
    decreases list.len(),
{
    if list.len() == 0 {
        v
    } else {
        with_token(
            with_tokens(v, list.drop_last(), days.drop_last()),
            list.last(),
            days.last().0,
            days.last().1,
        )
    }
}

/// Whether the instants are possible ones for the date filters among the tokens.
pub open spec fn days_fit(
    list: Seq<Seq<char>>,
    days: Seq<(Option<i64>, Option<i64>)>,
) -> bool {
    &&& days.len() == list.len()
    &&& forall|i: int|
        0 <= i < list.len() ==> (clause_of(#[trigger] list[i]) matches Clause::Date(rest)
            ==> dates_fit(rest, days[i].0, days[i].1))
}

// ---------------------------------------------------------------------------
// Reading filters
// ---------------------------------------------------------------------------

/// Whether a token starts with a prefix, ignoring ASCII case.
fn has_prefix(token: &[char], prefix: &[char]) -> (r: bool)
    ensures
        r == prefix@.is_prefix_of(lower_all(token@)),
{
    if prefix.len() > token.len() {
        return false;
    }
    for i in 0..prefix.len()
        invariant
            prefix@.len() <= token@.len(),
            forall|j: int| 0 <= j < i ==> lower(token@[j]) == prefix@[j],
    {
        if lower_char(token[i]) != prefix[i] {
            assert(lower_all(token@).subrange(0, prefix@.len() as int)[i as int] != prefix@[i as int]);
            return false;
        }
    }
    assert(prefix@ =~= lower_all(token@).subrange(0, prefix@.len() as int));
    true
}

/// If the token starts with one of the prefixes, the rest of it.
fn strip_any<'a>(token: &'a [char], prefixes: &[&str]) -> (r: Option<&'a [char]>)
    ensures
        (match r {
            Some(rest) => after_prefix(token@, texts(prefixes@)) == Some(rest@),
            None => after_prefix(token@, texts(prefixes@)) is None,
        }),
{
    let ghost all = texts(prefixes@);
    assert(all.skip(0) =~= all);
    for i in 0..prefixes.len()
        invariant
            all == texts(prefixes@),
            after_prefix(token@, all) == after_prefix(token@, all.skip(i as int)),
    {
        let p = to_chars(prefixes[i]);
        assert(all.skip(i as int)[0] == p@);
        assert(all.skip(i as int).drop_first() =~= all.skip(i + 1));
        if has_prefix(token, p.as_slice()) {
            let rest = slice_subrange(token, p.len(), token.len());
            assert(rest@ =~= token@.skip(p@.len() as int));
            return Some(rest);
        }
    }
    assert(all.skip(all.len() as int) =~= Seq::<Seq<char>>::empty());
    None
}

/// Position of the first two dots in a row.
fn find_dots(s: &[char]) -> (r: Option<usize>)
    ensures
        r is Some <==> first_dots(s@) is Some,
        r matches Some(n) ==> first_dots(s@) == Some(n as nat) && n + 2 <= s@.len(),
{
    let mut i: usize = 0;
    let len: usize = s.len();
    assert(s@.skip(0) =~= s@);
    while i < len
        invariant
            i <= len,
            len == s@.len(),
            first_dots(s@) is Some <==> first_dots(s@.skip(i as int)) is Some,
            first_dots(s@.skip(i as int)) is Some ==> first_dots(s@)->0 == i + first_dots(
                s@.skip(i as int),
            )->0,
        decreases len - i,
    {
        let ghost rest = s@.skip(i as int);
        assert(rest.drop_first() =~= s@.skip(i + 1));
        if len - i < 2 {
            return None;
        }
        assert(rest[0] == s@[i as int] && rest[1] == s@[i + 1]);
        if s[i] == '.' && s[i + 1] == '.' {
            return Some(i);
        }
        i = i + 1;
    }
    None
}

/// A filter's bounds, as read.
enum Read<'a> {
    Range(&'a [char], &'a [char]),
    AtLeast(&'a [char]),
    AtMost(&'a [char]),
    Near(&'a [char]),
}

impl<'a> Read<'a> {
    spec fn is(self, b: Bounds) -> bool {
        match (self, b) {
            (Read::Range(lo, hi), Bounds::Range(l, h)) => lo@ == l && hi@ == h,
            (Read::AtLeast(x), Bounds::AtLeast(y)) => x@ == y,
            (Read::AtMost(x), Bounds::AtMost(y)) => x@ == y,
            (Read::Near(x), Bounds::Near(y)) => x@ == y,
            _ => false,
        }
    }
}

fn read_bounds<'a>(s: &'a [char]) -> (r: Read<'a>)
    ensures
        r.is(bounds_of(s@)),
{
    let len: usize = s.len();
    if let Some(n) = find_dots(s) {
        let lo = slice_subrange(s, 0, n);
        let hi = slice_subrange(s, n + 2, len);
        assert(lo@ =~= s@.take(n as int));
        assert(hi@ =~= s@.skip(n + 2));
        return Read::Range(lo, hi);
    }
    if s.len() == 0 || (s[0] != '>' && s[0] != '<') {
        return Read::Near(s);
    }
    let from: usize = if s.len() > 1 && s[1] == '=' {
        2
    } else {
        1
    };
    let rest = slice_subrange(s, from, s.len());
    assert(rest@ =~= s@.skip(from as int));
    if s[0] == '>' {
        Read::AtLeast(rest)
    } else {
        Read::AtMost(rest)
    }
}

/// Reads a size out of characters.
fn size_of_chars(s: &[char]) -> (r: Option<u64>)
    ensures
        r == size_of_text(s@),
{
    parse_size(from_chars(s).as_str())
}

fn parse_size_filter(rest: &[char], spec: &mut SearchSpec)
    ensures
        final(spec)@ == with_size(old(spec)@, rest@),
{
    match read_bounds(rest) {
        Read::Range(lo, hi) => {
            spec.size_min = size_of_chars(lo);
            spec.size_max = size_of_chars(hi);
        },
        Read::AtLeast(x) => {
            spec.size_min = size_of_chars(x);
        },
        Read::AtMost(x) => {
            spec.size_max = size_of_chars(x);
        },
        Read::Near(x) => {
            if let Some(n) = size_of_chars(x) {
                // Bare size: within a tenth either way.
                spec.size_min = Some(n - n / 10);
                spec.size_max = Some(n.saturating_add(n / 10));
            }
        },
    }
}

/// A day later.
fn next_day(t: i64) -> (r: i64)
    ensures
        r == day_after(t),
{
    if t > i64::MAX - DAY {
        i64::MAX
    } else {
        t + DAY
    }
}

/// Puts the days that a date filter names into the search: `first` and `second`
/// are the instants at which they start.
pub fn apply_date_filter(
    rest: &[char],
    first: Option<i64>,
    second: Option<i64>,
    spec: &mut SearchSpec,
)
    ensures
        final(spec)@ == with_dates(old(spec)@, rest@, first, second),
{
    match read_bounds(rest) {
        Read::Range(_, _) => {
            spec.date_min = first;
            spec.date_max = match second {
                Some(t) => Some(next_day(t)),
                None => None,
            };
        },
        Read::AtLeast(_) => {
            spec.date_min = first;
        },
        Read::AtMost(_) => {
            spec.date_max = first;
        },
        Read::Near(_) => {
            if let Some(t) = first {
                spec.date_min = Some(t);
                spec.date_max = Some(next_day(t));
            }
        },
    }
}

/// The instants at which the days named by a date filter start.
fn date_filter_days(rest: &[char]) -> (r: (Option<i64>, Option<i64>))
    ensures
        dates_fit(rest@, r.0, r.1),
{
    match read_bounds(rest) {
        Read::Range(lo, hi) => (
            parse_date(from_chars(lo).as_str()),
            parse_date(from_chars(hi).as_str()),
        ),
        Read::AtLeast(x) => (parse_date(from_chars(x).as_str()), None),
        Read::AtMost(x) => (parse_date(from_chars(x).as_str()), None),
        Read::Near(x) => (parse_date(from_chars(x).as_str()), None),
    }
}

/// Adds the extensions of an `ext:` filter.
fn parse_exts(rest: &[char], spec: &mut SearchSpec)
    ensures
        final(spec)@ == (SpecView {
            exts: old(spec)@.exts + exts_in(split_on(rest@, ',')),
            ..old(spec)@
        }),
{
    let pieces = split(rest, ',');
    let ghost all = char_views(pieces@);
    let ghost start = spec@;
    assert(start.exts + exts_in(all.take(0)) =~= start.exts);
    for i in 0..pieces.len()
        invariant
            all == char_views(pieces@),
            spec@ == (SpecView { exts: start.exts + exts_in(all.take(i as int)), ..start }),
    {
        assert(all.take(i + 1).drop_last() =~= all.take(i as int));
        assert(all.take(i + 1).last() == pieces@[i as int]@);
        let piece = trimmed(pieces[i].as_slice());
        let mut n: usize = 0;
        assert(piece@.skip(0) =~= piece@);
        while n < piece.len() && piece[n] == '.'
            invariant
                n <= piece@.len(),
                without_dots(piece@.skip(n as int)) == without_dots(piece@),
            decreases piece@.len() - n,
        {
            assert(piece@.skip(n as int).drop_first() =~= piece@.skip(n + 1));
            n = n + 1;
        }
        let core = slice_subrange(piece, n, piece.len());
        assert(core@ =~= piece@.skip(n as int));
        if core.len() > 0 {
            let e = lower_text(from_chars(core).as_str());
            let ghost before = spec.exts@;
            let ghost was = spec@;
            spec.exts.push(e);
            assert(views(spec.exts@) =~= views(before).push(e@));
            assert((start.exts + exts_in(all.take(i as int))).push(e@) =~= start.exts + exts_in(
                all.take(i as int),
            ).push(e@));
        }
    }
    assert(all.take(all.len() as int) =~= all);
}

/// Appends a text to a list.
fn push_text(list: &mut Vec<String>, text: String)
    ensures
        views(final(list)@) == views(old(list)@).push(text@),
{
    let ghost before = list@;
    list.push(text);
    assert(views(list@) =~= views(before).push(text@));
}

/// Puts one token into the search.
fn apply_token(token: String, spec: &mut SearchSpec) -> (days: (Option<i64>, Option<i64>))
    ensures
        final(spec)@ == with_token(old(spec)@, token@, days.0, days.1),
        clause_of(token@) matches Clause::Date(rest) ==> dates_fit(rest, days.0, days.1),
{
    proof {
        reveal(with_token);
    }
    let chars = to_chars(token.as_str());
    let t = chars.as_slice();
    if let Some(rest) = strip_any(t, &EXT_PREFIXES) {
        parse_exts(rest, spec);
    } else if let Some(rest) = strip_any(t, &PATH_PREFIXES) {
        if rest.len() > 0 {
            push_text(&mut spec.path_terms, from_chars(rest));
        }
    } else if let Some(rest) = strip_any(t, &SIZE_PREFIXES) {
        parse_size_filter(rest, spec);
    } else if let Some(rest) = strip_any(t, &DATE_PREFIXES) {
        let days = date_filter_days(rest);
        apply_date_filter(rest, days.0, days.1, spec);
        return days;
    } else if let Some(rest) = strip_any(t, &TYPE_PREFIXES) {
        let word = lower_text(from_chars(rest).as_str());
        if crate::text::listed(&FILE_WORDS, word.as_str()) {
            spec.type_filter = TypeFilter::File;
        } else if crate::text::listed(&FOLDER_WORDS, word.as_str()) {
            spec.type_filter = TypeFilter::Folder;
        }
    } else if let Some(rest) = strip_any(t, &CONTENT_PREFIXES) {
        if rest.len() > 0 {
            spec.content = Some(from_chars(rest));
        }
    } else {
        push_text(&mut spec.name_terms, token);
    }
    (None, None)
}

proof fn lemma_with_tokens_push(
    v: SpecView,
    list: Seq<Seq<char>>,
    days: Seq<(Option<i64>, Option<i64>)>,
    token: Seq<char>,
    found: (Option<i64>, Option<i64>),
)
    requires
        days_fit(list, days),
        clause_of(token) matches Clause::Date(rest) ==> dates_fit(rest, found.0, found.1),
    ensures
        days_fit(list.push(token), days.push(found)),
        with_tokens(v, list.push(token), days.push(found)) == with_token(
            with_tokens(v, list, days),
            token,
            found.0,
            found.1,
        ),
{
    let more = list.push(token);
    let all = days.push(found);
    assert(more.drop_last() =~= list);
    assert(all.drop_last() =~= days);
    assert forall|k: int| 0 <= k < more.len() implies (clause_of(
        #[trigger] more[k],
    ) matches Clause::Date(rest) ==> dates_fit(rest, all[k].0, all[k].1)) by {
        if k < list.len() {
            assert(more[k] == list[k]);
            assert(all[k] == days[k]);
        }
    }
}

/// Whether a query reads as the given search. The instants for named days come
/// from the machine's time zone; all else follows from the text.
pub open spec fn reads_as(
    input: Seq<char>,
    mode: MatchMode,
    case_sensitive: bool,
    v: SpecView,
) -> bool {
    exists|days: Seq<(Option<i64>, Option<i64>)>| #[trigger]
        days_fit(tokens(input), days) && v == with_tokens(
            blank(mode, case_sensitive),
            tokens(input),
            days,
        )
}

/// Reads a query.
pub fn parse(input: &str, mode: MatchMode, case_sensitive: bool) -> (r: SearchSpec)
    ensures
        reads_as(input@, mode, case_sensitive, r@),
{
    let mut spec = SearchSpec::blank(mode, case_sensitive);
    let list = tokenize(input);
    let ghost all = tokens(input@);
    let ghost mut days: Seq<(Option<i64>, Option<i64>)> = Seq::empty();
    for i in 0..list.len()
        invariant
            views(list@) == all,
            days_fit(all.take(i as int), days),
            spec@ == with_tokens(self::blank(mode, case_sensitive), all.take(i as int), days),
    {
        let token = list[i].clone();
        let ghost text = token@;
        assert(all.take(i + 1) =~= all.take(i as int).push(text));
        let found = apply_token(token, &mut spec);
        proof {
            lemma_with_tokens_push(
                self::blank(mode, case_sensitive),
                all.take(i as int),
                days,
                text,
                found,
            );
            days = days.push(found);
        }
    }
    assert(all.take(all.len() as int) =~= all);
    assert(days_fit(all, days));
    spec
}

// ---------------------------------------------------------------------------
// Laws
// ---------------------------------------------------------------------------

/// The tokens that carry no filter.
pub open spec fn plain_tokens(list: Seq<Seq<char>>) -> Seq<Seq<char>>
    decreases list.len(),
{
    if list.len() == 0 {
        Seq::empty()
    } else if clause_of(list.last()) is Name {
        plain_tokens(list.drop_last()).push(list.last())
    } else {
        plain_tokens(list.drop_last())
    }
}

/// The plain words of a query, with their case, are its name terms, in order,
/// whatever filters are mixed with them; mode and case toggle are kept.
pub proof fn law_plain_words_are_name_terms(
    v: SpecView,
    list: Seq<Seq<char>>,
    days: Seq<(Option<i64>, Option<i64>)>,
)
    requires
        days.len() == list.len(),
    ensures
        with_tokens(v, list, days).name_terms == v.name_terms + plain_tokens(list),
        with_tokens(v, list, days).mode == v.mode,
        with_tokens(v, list, days).case_sensitive == v.case_sensitive,
    decreases list.len(),
{
    reveal(with_token);
    if list.len() > 0 {
        law_plain_words_are_name_terms(v, list.drop_last(), days.drop_last());
        let before = plain_tokens(list.drop_last());
        if clause_of(list.last()) is Name {
            assert((v.name_terms + before).push(list.last()) =~= v.name_terms + before.push(
                list.last(),
            ));
        }
    } else {
        assert(v.name_terms + Seq::<Seq<char>>::empty() =~= v.name_terms);
    }
}

/// Number of double quotes in a text.
pub open spec fn quotes(s: Seq<char>) -> nat
    decreases s.len(),
{
    if s.len() == 0 {
        0
    } else {
        quotes(s.drop_last()) + (if s.last() == '"' {
            1nat
        } else {
            0nat
        })
    }
}

proof fn lemma_quoted(s: Seq<char>)
    ensures
        reading(s).quoted <==> quotes(s) % 2 == 1,
    decreases s.len(),
{
    if s.len() > 0 {
        lemma_quoted(s.drop_last());
    }
}

proof fn lemma_reading_on(a: Seq<char>, b: Seq<char>)
    requires
        !reading(a).quoted,
    ensures
        reading(a.push(' ') + b) == (Reading {
            done: tokens(a) + reading(b).done,
            current: reading(b).current,
            quoted: reading(b).quoted,
        }),
    decreases b.len(),
{
    let head = a.push(' ');
    if b.len() == 0 {
        assert(head.drop_last() =~= a);
        assert(head + b =~= head);
        assert(tokens(a) + reading(b).done =~= tokens(a));
    } else {
        lemma_reading_on(a, b.drop_last());
        assert((head + b).drop_last() =~= head + b.drop_last());
        let before = reading(b.drop_last());
        assert((tokens(a) + before.done).push(before.current) =~= tokens(a) + before.done.push(
            before.current,
        ));
    }
}

pub proof fn lemma_with_tokens_last(
    v: SpecView,
    list: Seq<Seq<char>>,
    days: Seq<(Option<i64>, Option<i64>)>,
    before: SpecView,
    token: Seq<char>,
    found: (Option<i64>, Option<i64>),
    now: SpecView,
)
    requires
        list.len() > 0,
        before == with_tokens(v, list.drop_last(), days.drop_last()),
        token == list.last(),
        found == days.last(),
        now == with_token(before, token, found.0, found.1),
    ensures
        with_tokens(v, list, days) == now,
{
}

proof fn lemma_with_tokens_on(
    v: SpecView,
    list: Seq<Seq<char>>,
    days: Seq<(Option<i64>, Option<i64>)>,
    more: Seq<Seq<char>>,
    later: Seq<(Option<i64>, Option<i64>)>,
)
    requires
        days.len() == list.len(),
        later.len() == more.len(),
    ensures
        with_tokens(v, list + more, days + later) == with_tokens(
            with_tokens(v, list, days),
            more,
            later,
        ),
    decreases more.len(),
{
    if more.len() == 0 {
        assert(list + more =~= list);
        assert(days + later =~= days);
    } else {
        lemma_with_tokens_on(v, list, days, more.drop_last(), later.drop_last());
        let all = list + more;
        let every = days + later;
        assert(all.drop_last() =~= list + more.drop_last());
        assert(every.drop_last() =~= days + later.drop_last());
        let before = with_tokens(v, all.drop_last(), every.drop_last());
        let now = with_token(before, more.last(), later.last().0, later.last().1);
        lemma_with_tokens_last(v, all, every, before, more.last(), later.last(), now);
        lemma_with_tokens_last(
            with_tokens(v, list, days),
            more,
            later,
            before,
            more.last(),
            later.last(),
            now,
        );
    }
}

/// `v` with the words, extensions and paths of `w` added to its own, and with the
/// content and type of `w` where `w` has them.
pub open spec fn extends(v: SpecView, w: SpecView, both: SpecView) -> bool {
    &&& both.mode == v.mode
    &&& both.case_sensitive == v.case_sensitive
    &&& both.name_terms == v.name_terms + w.name_terms
    &&& both.exts == v.exts + w.exts
    &&& both.path_terms == v.path_terms + w.path_terms
    &&& both.content == if w.content is Some {
        w.content
    } else {
        v.content
    }
    &&& both.type_filter == if w.type_filter != TypeFilter::Any {
        w.type_filter
    } else {
        v.type_filter
    }
}

proof fn lemma_extends_sizes(v: SpecView, w: SpecView, both: SpecView, rest: Seq<char>)
    requires
        extends(v, w, both),
    ensures
        extends(v, with_size(w, rest), with_size(both, rest)),
{
}

proof fn lemma_extends_dates(
    v: SpecView,
    w: SpecView,
    both: SpecView,
    rest: Seq<char>,
    one: (Option<i64>, Option<i64>),
    two: (Option<i64>, Option<i64>),
)
    requires
        extends(v, w, both),
    ensures
        extends(v, with_dates(w, rest, one.0, one.1), with_dates(both, rest, two.0, two.1)),
{
}

proof fn lemma_extends_token(
    v: SpecView,
    w: SpecView,
    both: SpecView,
    token: Seq<char>,
    one: (Option<i64>, Option<i64>),
    two: (Option<i64>, Option<i64>),
)
    requires
        extends(v, w, both),
    ensures
        extends(v, with_token(w, token, one.0, one.1), with_token(both, token, two.0, two.1)),
{
    reveal(with_token);
    match clause_of(token) {
        Clause::Ext(rest) => {
            let e = exts_in(split_on(rest, ','));
            assert((v.exts + w.exts) + e =~= v.exts + (w.exts + e));
        },
        Clause::Path(rest) => {
            assert((v.path_terms + w.path_terms).push(rest) =~= v.path_terms + w.path_terms.push(
                rest,
            ));
        },
        Clause::Size(rest) => {
            lemma_extends_sizes(v, w, both, rest);
        },
        Clause::Date(rest) => {
            lemma_extends_dates(v, w, both, rest, one, two);
        },
        Clause::Type(rest) => {},
        Clause::Content(rest) => {},
        Clause::Name(name) => {
            assert((v.name_terms + w.name_terms).push(name) =~= v.name_terms + w.name_terms.push(
                name,
            ));
        },
    }
}

proof fn lemma_extends(
    v: SpecView,
    mode: MatchMode,
    case_sensitive: bool,
    list: Seq<Seq<char>>,
    days: Seq<(Option<i64>, Option<i64>)>,
    others: Seq<(Option<i64>, Option<i64>)>,
)
    ensures
        extends(
            v,
            with_tokens(blank(mode, case_sensitive), list, others),
            with_tokens(v, list, days),
        ),
    decreases list.len(),
{
    let start = blank(mode, case_sensitive);
    if list.len() == 0 {
        assert(v.name_terms + start.name_terms =~= v.name_terms);
        assert(v.exts + start.exts =~= v.exts);
        assert(v.path_terms + start.path_terms =~= v.path_terms);
    } else {
        lemma_extends(
            v,
            mode,
            case_sensitive,
            list.drop_last(),
            days.drop_last(),
            others.drop_last(),
        );
        lemma_extends_token(
            v,
            with_tokens(start, list.drop_last(), others.drop_last()),
            with_tokens(v, list.drop_last(), days.drop_last()),
            list.last(),
            others.last(),
            days.last(),
        );
    }
}

/// Two queries with a space between them read as both together, unless the first
/// leaves a quotation open: the second is read on where the first has ended.
pub proof fn law_joined_queries_are_read_in_turn(
    a: Seq<char>,
    b: Seq<char>,
    v: SpecView,
    days: Seq<(Option<i64>, Option<i64>)>,
    later: Seq<(Option<i64>, Option<i64>)>,
)
    requires
        quotes(a) % 2 == 0,
        days.len() == tokens(a).len(),
        later.len() == tokens(b).len(),
    ensures
        tokens(a.push(' ') + b) == tokens(a) + tokens(b),
        with_tokens(v, tokens(a.push(' ') + b), days + later) == with_tokens(
            with_tokens(v, tokens(a), days),
            tokens(b),
            later,
        ),
{
    lemma_quoted(a);
    lemma_reading_on(a, b);
    let r = reading(b);
    assert((tokens(a) + r.done).push(r.current) =~= tokens(a) + r.done.push(r.current));
    lemma_with_tokens_on(v, tokens(a), days, tokens(b), later);
}

/// Whatever the instants of the named days: the words, extensions and paths of
/// two joined queries are those of the first and then those of the second, and
/// the second decides on content and type where it speaks of them.
pub proof fn law_joined_queries_ask_for_both(
    a: Seq<char>,
    b: Seq<char>,
    mode: MatchMode,
    case_sensitive: bool,
    va: SpecView,
    vb: SpecView,
    both: SpecView,
)
    requires
        quotes(a) % 2 == 0,
        reads_as(a, mode, case_sensitive, va),
        reads_as(b, mode, case_sensitive, vb),
        reads_as(a.push(' ') + b, mode, case_sensitive, both),
    ensures
        extends(va, vb, both),
        both.mode == mode,
        both.case_sensitive == case_sensitive,
{
    let start = blank(mode, case_sensitive);
    let la = tokens(a);
    let lb = tokens(b);
    let da = choose|days: Seq<(Option<i64>, Option<i64>)>| #[trigger]
        days_fit(la, days) && va == with_tokens(start, la, days);
    let db = choose|days: Seq<(Option<i64>, Option<i64>)>| #[trigger]
        days_fit(lb, days) && vb == with_tokens(start, lb, days);
    let all = tokens(a.push(' ') + b);
    let d = choose|days: Seq<(Option<i64>, Option<i64>)>| #[trigger]
        days_fit(all, days) && both == with_tokens(start, all, days);
    law_joined_queries_are_read_in_turn(a, b, start, da, db);
    let d1 = d.take(la.len() as int);
    let d2 = d.skip(la.len() as int);
    assert(d1 + d2 =~= d);
    law_joined_queries_are_read_in_turn(a, b, start, d1, d2);
    let first = with_tokens(start, la, d1);
    lemma_extends(start, mode, case_sensitive, la, d1, da);
    lemma_extends(first, mode, case_sensitive, lb, d2, db);
    lemma_extends(start, mode, case_sensitive, la, da, da);
    assert(start.name_terms + va.name_terms =~= va.name_terms);
    assert(start.exts + va.exts =~= va.exts);
    assert(start.path_terms + va.path_terms =~= va.path_terms);
}

/// The day that a text names.
pub open spec fn day_of(s: Seq<char>) -> int {
    let (y, m, d) = date_named(s)->0;
    day_number(y as int, m as int, d as int)
}

/// A range from one day to a later one is not empty, in any time zone.
pub proof fn law_date_range_is_not_empty(
    v: SpecView,
    rest: Seq<char>,
    first: i64,
    second: i64,
)
    requires
        bounds_of(rest) matches Bounds::Range(lo, hi) && day_of(lo) < day_of(hi),
        dates_fit(rest, Some(first), Some(second)),
    ensures
        with_dates(v, rest, Some(first), Some(second)).date_min == Some(first),
        with_dates(v, rest, Some(first), Some(second)).date_max matches Some(t) && first < t,
{
    let hi = bounds_of(rest)->Range_1;
    lemma_start_of_day_bound(hi, Some(second));
}

}
