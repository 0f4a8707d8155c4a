//! Search execution: runs a parsed `SearchSpec` over the index in parallel,
//! scores matches, and returns the top results.

use crate::index::{path_at, EntryView, Index, IndexView, NO_PARENT};
use crate::order::{lemma_permuted_distinct, lemma_same_elements, select_nth, sort_keys};
use crate::paths::{law_respelling_undoes_itself, respelled, turned_slash};
use crate::query::{MatchMode, SearchSpec, SpecView, TypeFilter};
use crate::text::{join, joined, listed_string, occurs, views};
use crate::util::{
    bytes, contains_ignore_case, contains_text, contains_with, ends_in, extension, extension_of,
    last_of, law_extension_is_the_end, lemma_last_of, lower_extension, lower_extension_of,
    same_byte, stands_here, stands_with, Category,
};
use nucleo_matcher::pattern::{CaseMatching, Normalization, Pattern};
use nucleo_matcher::{Config, Matcher, Utf32Str};
use rayon::prelude::{IntoParallelIterator, ParallelIterator};
use std::sync::atomic::{AtomicU64, Ordering};
use vstd::prelude::*;
use vstd::utf8::*;

verus! {

// ---------------------------------------------------------------------------
// Regular expressions and fuzzy patterns
// ---------------------------------------------------------------------------

/// A compiled regular expression of the `regex` crate.
#[verifier::external_type_specification]
#[verifier::external_body]
pub struct ExRegex(regex::Regex);

/// A parsed fuzzy pattern of the `nucleo_matcher` crate.
#[verifier::external_type_specification]
#[verifier::external_body]
pub struct ExPattern(nucleo_matcher::pattern::Pattern);

/// The working memory of the `nucleo_matcher` crate.
#[verifier::external_type_specification]
#[verifier::external_body]
pub struct ExMatcher(nucleo_matcher::Matcher);

/// What `regex::RegexBuilder` makes of a pattern: nothing where the pattern is
/// not a regular expression.
pub uninterp spec fn compiled_regex(pattern: Seq<char>, ignore_case: bool) -> Option<regex::Regex>;

/// What `regex::Regex::is_match` says of a text.
pub uninterp spec fn regex_matches(re: regex::Regex, text: Seq<char>) -> bool;

/// What `Pattern::parse` of `nucleo_matcher` makes of a pattern.
pub uninterp spec fn fuzzy_pattern(
    pattern: Seq<char>,
    respect_case: bool,
) -> nucleo_matcher::pattern::Pattern;

/// What `Pattern::score` of `nucleo_matcher` says of a text, under the default
/// configuration.
pub uninterp spec fn fuzzy_score(
    pattern: nucleo_matcher::pattern::Pattern,
    text: Seq<char>,
) -> Option<u32>;

/// Compiles a regular expression with `regex::RegexBuilder`. What comes out
/// depends on the pattern and the case flag alone.
#[verifier::external_body]
pub(crate) fn compile_regex(pattern: &str, ignore_case: bool) -> (r: Option<regex::Regex>)
    ensures
        r == compiled_regex(pattern@, ignore_case),
{
    regex::RegexBuilder::new(pattern).case_insensitive(ignore_case).build().ok()
}

/// The characters that mean something in a regular expression.
pub open spec fn is_meta(c: char) -> bool {
    ||| c == '\\'
    ||| c == '.'
    ||| c == '+'
    ||| c == '*'
    ||| c == '?'
    ||| c == '('
    ||| c == ')'
    ||| c == '|'
    ||| c == '['
    ||| c == ']'
    ||| c == '{'
    ||| c == '}'
    ||| c == '^'
    ||| c == '$'
    ||| c == '#'
    ||| c == '&'
    ||| c == '-'
    ||| c == '~'
}

/// A text with a backslash before each character that means something in a
/// regular expression.
pub open spec fn escaped(s: Seq<char>) -> Seq<char>
    decreases s.len(),
{
    if s.len() == 0 {
        Seq::empty()
    } else if is_meta(s.last()) {
        escaped(s.drop_last()).push('\\').push(s.last())
    } else {
        escaped(s.drop_last()).push(s.last())
    }
}

/// `regex::escape` puts a backslash before each character that means something
/// in a regular expression, and leaves the others alone.
#[verifier::external_body]
pub(crate) fn escape_literal(text: &str) -> (r: String)
    ensures
        r@ == escaped(text@),
{
    regex::escape(text)
}

/// Tests a text with `regex::Regex::is_match`. An expression that is an escaped
/// literal, compiled so that case counts, matches the texts that contain the
/// literal.
#[verifier::external_body]
pub(crate) fn regex_is_match(re: &regex::Regex, text: &str) -> (r: bool)
    ensures
        r == regex_matches(*re, text@),
        forall|literal: Seq<char>|
            #[trigger] compiled_regex(escaped(literal), false) == Some(*re) ==> r == occurs(
                text@,
                literal,
            ),
{
    re.is_match(text)
}

/// Parses a fuzzy pattern with `Pattern::parse`; accents are ignored in the way
/// that the crate calls smart. A word holds at most two characters for each one of
/// the text, and scores at most 36 for each: the length limit keeps the sum of the
/// scores of all words within 32 bits.
#[verifier::external_body]
fn parse_pattern(pattern: &str, respect_case: bool) -> (r: nucleo_matcher::pattern::Pattern)
    requires
        pattern@.len() <= MAX_PATTERN,
    ensures
        r == fuzzy_pattern(pattern@, respect_case),
{
    let case = if respect_case { CaseMatching::Respect } else { CaseMatching::Ignore };
    Pattern::parse(pattern, case, Normalization::Smart)
}

/// Working memory for matching, made by `Matcher::new`. Nothing is claimed of
/// it: scoring sets the configuration that it needs.
#[verifier::external_body]
fn new_matcher() -> (r: nucleo_matcher::Matcher) {
    Matcher::new(Config::DEFAULT)
}

/// The most that a word of a fuzzy pattern weighs, and what the last one weighs.
/// Words end at spaces, but not at one behind a backslash. A backslash weighs as
/// much as two other characters.
pub open spec fn weighed(pattern: Seq<char>) -> (nat, nat)
    decreases pattern.len(),
{
    if pattern.len() == 0 {
        (0, 0)
    } else {
        let front = pattern.drop_last();
        let (most, last) = weighed(front);
        let c = pattern.last();
        if c == ' ' && !(front.len() > 0 && front.last() == '\\') {
            (most, 0)
        } else {
            let now = last + (if c == '\\' {
                2nat
            } else {
                1nat
            });
            (
                if now > most {
                    now
                } else {
                    most
                },
                now,
            )
        }
    }
}

/// What the heaviest word of a fuzzy pattern weighs.
pub open spec fn heaviest(pattern: Seq<char>) -> nat {
    weighed(pattern).0
}

/// Whether a pattern was parsed from a text without heavy words.
pub open spec fn is_light(pattern: nucleo_matcher::pattern::Pattern) -> bool {
    exists|text: Seq<char>, respect_case: bool|
        heaviest(text) <= MAX_FUZZY && #[trigger] fuzzy_pattern(text, respect_case) == pattern
}

/// Scores a text with `Pattern::score`. The score depends on the pattern and the
/// text alone: the matcher holds the default configuration and otherwise only
/// memory. Texts of more than 2^32 - 1 characters are beyond the crate. A word
/// scores at most 36 for its first character and 26 for each further one, added
/// up in 16 bits, and none where it is longer than the text: so either all words or
/// the text have to be short. A word is no longer than it weighs: in one that is
/// not ASCII, the crate doubles backslashes that escape nothing.
#[verifier::external_body]
fn score_text(
    pattern: &nucleo_matcher::pattern::Pattern,
    text: &str,
    matcher: &mut nucleo_matcher::Matcher,
) -> (r: Option<u32>)
    requires
        text@.len() <= u32::MAX,
        text@.len() <= MAX_FUZZY || is_light(*pattern),
    ensures
        r == fuzzy_score(*pattern, text@),
{
    let mut buf = Vec::new();
    matcher.config = Config::DEFAULT;
    pattern.score(Utf32Str::new(text, &mut buf), matcher)
}

/// Most characters of a fuzzy pattern.
pub const MAX_PATTERN: usize = 50_000_000;

/// Most characters that one word of a fuzzy pattern can match.
pub const MAX_FUZZY: usize = 2_520;

// ---------------------------------------------------------------------------
// Results
// ---------------------------------------------------------------------------

#[derive(Clone, Debug)]
pub struct Hit {
    pub idx: u32,
    pub score: u32,
    pub name: String,
    pub path: String,
    pub is_dir: bool,
    pub size: u64,
    pub modified: i64,
    /// First matching line for content searches: (line number, text).
    pub content_line: Option<(u64, String)>,
}

#[verifier::ext_equal]
pub struct HitView {
    pub idx: u32,
    pub score: u32,
    pub name: Seq<char>,
    pub path: Seq<char>,
    pub dir: bool,
    pub size: u64,
    pub modified: i64,
    pub content_line: Option<(u64, Seq<char>)>,
}

impl View for Hit {
    type V = HitView;

    open spec fn view(&self) -> HitView {
        HitView {
            idx: self.idx,
            score: self.score,
            name: self.name@,
            path: self.path@,
            dir: self.is_dir,
            size: self.size,
            modified: self.modified,
            content_line: match self.content_line {
                Some((n, line)) => Some((n, line@)),
                None => None,
            },
        }
    }
}

pub open spec fn hit_views(hits: Seq<Hit>) -> Seq<HitView> {
    hits.map_values(|h: Hit| h@)
}

pub struct SearchOutcome {
    pub hits: Vec<Hit>,
    /// Total matches before truncation to the requested number.
    pub total: usize,
    pub truncated: bool,
}

/// The hit for a scored entry.
pub open spec fn hit_for(v: IndexView, m: (u32, u32)) -> HitView {
    let e = v.entries[m.0 as int];
    HitView {
        idx: m.0,
        score: m.1,
        name: e.name,
        path: path_at(v.entries, m.0 as int),
        dir: e.dir,
        size: e.size,
        modified: e.modified,
        content_line: None,
    }
}

// ---------------------------------------------------------------------------
// Ranking
// ---------------------------------------------------------------------------

/// Whether match `a` (an entry number and a score) is shown before match `b`: a
/// higher score first, and in index order where scores are equal.
pub open spec fn ranks_before(a: (u32, u32), b: (u32, u32)) -> bool {
    a.1 > b.1 || (a.1 == b.1 && a.0 < b.0)
}

/// Whether `top` holds the best `max` of `all` matches, in order.
pub open spec fn is_top(top: Seq<(u32, u32)>, all: Seq<(u32, u32)>, max: nat) -> bool {
    &&& top.len() == if all.len() <= max {
        all.len()
    } else {
        max
    }
    &&& forall|i: int, j: int| 0 <= i < j < top.len() ==> ranks_before(top[i], top[j])
    &&& forall|i: int| 0 <= i < top.len() ==> all.contains(#[trigger] top[i])
    &&& forall|k: int, i: int|
        0 <= k < all.len() && 0 <= i < top.len() && !top.contains(all[k]) ==> ranks_before(
            #[trigger] top[i],
            #[trigger] all[k],
        )
}

/// Whether no entry occurs twice.
pub open spec fn distinct(all: Seq<(u32, u32)>) -> bool {
    forall|i: int, j: int|
        0 <= i < all.len() && 0 <= j < all.len() && i != j ==> (#[trigger] all[i]).0 != (
        #[trigger] all[j]).0
}

/// A number that orders matches as they are shown.
pub open spec fn rank_key(m: (u32, u32)) -> u64 {
    ((u32::MAX - m.1) * 0x1_0000_0000 + m.0) as u64
}

/// The match with a given number.
pub open spec fn match_of(key: u64) -> (u32, u32) {
    ((key % 0x1_0000_0000) as u32, (u32::MAX - key / 0x1_0000_0000) as u32)
}

proof fn lemma_key(m: (u32, u32))
    ensures
        match_of(rank_key(m)) == m,
        rank_key(m) == (u32::MAX - m.1) * 0x1_0000_0000 + m.0,
{
}

proof fn lemma_key_order(a: (u32, u32), b: (u32, u32))
    ensures
        rank_key(a) < rank_key(b) <==> ranks_before(a, b),
{
    lemma_key(a);
    lemma_key(b);
}

/// The top matches are determined: there is one list of the best `max`.
pub proof fn law_top_is_unique(
    a: Seq<(u32, u32)>,
    b: Seq<(u32, u32)>,
    all: Seq<(u32, u32)>,
    max: nat,
)
    requires
        is_top(a, all, max),
        is_top(b, all, max),
    ensures
        a == b,
{
    assert forall|i: int| 0 <= i < a.len() implies a[i] == b[i] by {
        lemma_top_same(a, b, all, max, max, i);
    }
    assert(a =~= b);
}

/// Two lists of the best matches agree as far as both go.
proof fn lemma_top_same(
    a: Seq<(u32, u32)>,
    b: Seq<(u32, u32)>,
    all: Seq<(u32, u32)>,
    m: nat,
    n: nat,
    i: int,
)
    requires
        is_top(a, all, m),
        is_top(b, all, n),
        0 <= i < a.len(),
        i < b.len(),
    ensures
        a[i] == b[i],
    decreases i,
{
    assert forall|j: int| 0 <= j < i implies a[j] == b[j] by {
        lemma_top_same(a, b, all, m, n, j);
    }
    // The earlier of two different matches at this place would have to be in the
    // other list too, before this place, where both lists agree.
    lemma_not_before(a, b, all, m, n, i);
    lemma_not_before(b, a, all, n, m, i);
}

proof fn lemma_not_before(
    a: Seq<(u32, u32)>,
    b: Seq<(u32, u32)>,
    all: Seq<(u32, u32)>,
    m: nat,
    n: nat,
    i: int,
)
    requires
        is_top(a, all, m),
        is_top(b, all, n),
        0 <= i < a.len(),
        i < b.len(),
        forall|j: int| 0 <= j < i ==> a[j] == b[j],
    ensures
        !ranks_before(a[i], b[i]),
{
    if ranks_before(a[i], b[i]) {
        assert(all.contains(a[i]));
        let k = choose|k: int| 0 <= k < all.len() && all[k] == a[i];
        if b.contains(a[i]) {
            let j = choose|j: int| 0 <= j < b.len() && b[j] == a[i];
            if j < i {
                assert(a[j] == a[i]);
                assert(ranks_before(a[j], a[i]));
            } else if j > i {
                assert(ranks_before(b[i], b[j]));
            }
        } else {
            assert(ranks_before(b[i], all[k]));
        }
    }
}

pub open spec fn keys_of(all: Seq<(u32, u32)>) -> Seq<u64> {
    all.map_values(|m: (u32, u32)| rank_key(m))
}

proof fn lemma_keys_distinct(all: Seq<(u32, u32)>)
    requires
        distinct(all),
    ensures
        keys_of(all).no_duplicates(),
{
    let keys = keys_of(all);
    assert forall|i: int, j: int|
        0 <= i < keys.len() && 0 <= j < keys.len() && i != j implies keys[i] != keys[j] by {
        lemma_key(all[i]);
        lemma_key(all[j]);
        assert(all[i].0 != all[j].0);
    }
}

/// Taking the first `m` of a partitioned list of keys and sorting them gives the
/// top matches.
proof fn lemma_top(all: Seq<(u32, u32)>, parted: Seq<u64>, m: int, sorted: Seq<u64>, max: nat)
    requires
        distinct(all),
        parted.to_multiset() == keys_of(all).to_multiset(),
        parted.len() == all.len(),
        0 <= m <= parted.len(),
        m == (if all.len() <= max {
            all.len()
        } else {
            max
        }),
        forall|i: int, j: int| 0 <= i < m <= j < parted.len() ==> parted[i] <= parted[j],
        sorted.to_multiset() == parted.take(m).to_multiset(),
        sorted.len() == m,
        forall|i: int, j: int| 0 <= i < j < sorted.len() ==> sorted[i] <= sorted[j],
    ensures
        is_top(sorted.map_values(|k: u64| match_of(k)), all, max),
{
    let keys = keys_of(all);
    let first = parted.take(m);
    let top = sorted.map_values(|k: u64| match_of(k));
    lemma_keys_distinct(all);
    lemma_permuted_distinct(keys, parted);
    assert(first.no_duplicates());
    lemma_permuted_distinct(first, sorted);
    // Each of the sorted keys belongs to a match.
    assert forall|i: int| 0 <= i < sorted.len() implies rank_key(#[trigger] top[i]) == sorted[i]
        && all.contains(top[i]) && first.contains(sorted[i]) by {
        lemma_same_elements(sorted, first, sorted[i]);
        assert(sorted.contains(sorted[i]));
        let p = choose|p: int| 0 <= p < first.len() && first[p] == sorted[i];
        assert(parted[p] == sorted[i]);
        assert(parted.contains(sorted[i]));
        lemma_same_elements(parted, keys, sorted[i]);
        let k = choose|k: int| 0 <= k < keys.len() && keys[k] == sorted[i];
        lemma_key(all[k]);
        assert(top[i] == all[k]);
    }
    assert forall|i: int, j: int| 0 <= i < j < top.len() implies ranks_before(
        top[i],
        top[j],
    ) by {
        assert(rank_key(top[i]) == sorted[i] && rank_key(top[j]) == sorted[j]);
        assert(sorted[i] != sorted[j]);
        lemma_key_order(top[i], top[j]);
    }
    assert forall|k: int, i: int|
        0 <= k < all.len() && 0 <= i < top.len() && !top.contains(all[k]) implies ranks_before(
        #[trigger] top[i],
        #[trigger] all[k],
    ) by {
        let x = rank_key(all[k]);
        assert(keys[k] == x);
        assert(keys.contains(x));
        lemma_same_elements(parted, keys, x);
        let j = choose|j: int| 0 <= j < parted.len() && parted[j] == x;
        if j < m {
            assert(first[j] == x);
            assert(first.contains(x));
            lemma_same_elements(sorted, first, x);
            let p = choose|p: int| 0 <= p < sorted.len() && sorted[p] == x;
            lemma_key(all[k]);
            assert(top[p] == all[k]);
        }
        assert(rank_key(top[i]) == sorted[i]);
        let p = choose|p: int| 0 <= p < first.len() && first[p] == sorted[i];
        assert(parted[p] <= parted[j]);
        assert(parted[p] != parted[j]);
        lemma_key_order(top[i], all[k]);
    }
}

/// The best `max` matches, in order. Only these are ever shown, so the rest is
/// parted off without being sorted.
pub fn top_ranked(scored: &[(u32, u32)], max: usize) -> (r: Vec<(u32, u32)>)
    requires
        distinct(scored@),
    ensures
        is_top(r@, scored@, max as nat),
{
    let mut keys: Vec<u64> = Vec::new();
    for i in 0..scored.len()
        invariant
            keys@ == keys_of(scored@.take(i as int)),
    {
        let (idx, score) = scored[i];
        proof {
            lemma_key(scored@[i as int]);
        }
        let key: u64 = (u32::MAX - score) as u64 * 0x1_0000_0000 + idx as u64;
        keys.push(key);
        assert(keys@ =~= keys_of(scored@.take(i + 1)));
    }
    assert(scored@.take(scored@.len() as int) =~= scored@);
    if keys.len() > max {
        select_nth(&mut keys, max);
    }
    let ghost parted = keys@;
    if keys.len() > max {
        keys.truncate(max);
    }
    let ghost m = keys@.len() as int;
    assert(keys@ =~= parted.take(m));
    sort_keys(&mut keys);
    proof {
        lemma_top(scored@, parted, m, keys@, max as nat);
    }
    let mut r: Vec<(u32, u32)> = Vec::new();
    for i in 0..keys.len()
        invariant
            r@ == keys@.take(i as int).map_values(|k: u64| match_of(k)),
    {
        let key = keys[i];
        r.push(((key % 0x1_0000_0000) as u32, u32::MAX - (key / 0x1_0000_0000) as u32));
        assert(r@ =~= keys@.take(i + 1).map_values(|k: u64| match_of(k)));
    }
    assert(keys@.take(keys@.len() as int) =~= keys@);
    r
}

// ---------------------------------------------------------------------------
// Scores
// ---------------------------------------------------------------------------

/// A byte that does not belong to a word.
pub open spec fn is_boundary(b: u8) -> bool {
    !(48 <= b <= 57 || 65 <= b <= 90 || 97 <= b <= 122)
}

/// What one term is worth that stands at `pos`, takes `len` bytes, and has a name
/// of which `stem` bytes come before the extension.
pub open spec fn term_points(name: Seq<u8>, stem: int, pos: int, len: int) -> u32 {
    let end = pos + len;
    let start_ok = pos == 0 || is_boundary(name[pos - 1]);
    let end_ok = end == name.len() || is_boundary(name[end]);
    if pos == 0 && end == name.len() {
        5000  // exact whole name
    } else if pos == 0 && end == stem {
        4000  // exact stem: "dog" matches "dog.png"
    } else if pos == 0 && end_ok {
        1500  // whole word at the start
    } else if start_ok && end_ok {
        700  // whole word somewhere inside
    } else if pos == 0 {
        400  // prefix of a longer word
    } else {
        100  // buried substring
    }
}

/// Bytes of a name before its extension.
pub open spec fn stem_len(name: Seq<char>) -> int {
    match extension(name) {
        Some(e) => bytes(name).len() - bytes(e).len() - 1,
        None => bytes(name).len() as int,
    }
}

/// The sum, or the largest number where it does not fit.
pub open spec fn capped(a: int, b: int) -> u32 {
    if a + b > u32::MAX {
        u32::MAX
    } else {
        (a + b) as u32
    }
}

/// The most that a term is worth at one of the first `upto` positions of a name;
/// nothing where it stands at none of them.
pub open spec fn best_upto(
    same: spec_fn(u8, u8) -> bool,
    name: Seq<u8>,
    stem: int,
    term: Seq<u8>,
    upto: nat,
) -> Option<u32>
    decreases upto,
{
    if upto == 0 {
        None
    } else {
        let before = best_upto(same, name, stem, term, (upto - 1) as nat);
        let points = term_points(name, stem, upto - 1, term.len() as int);
        if stands_with(same, name, term, upto - 1) {
            match before {
                Some(b) if b >= points => Some(b),
                _ => Some(points),
            }
        } else {
            before
        }
    }
}

/// How well a term fits a name: what it is worth where it fits best; nothing
/// where it does not occur.
pub open spec fn fit(name: Seq<char>, term: Seq<char>, case_sensitive: bool) -> Option<u32> {
    best_upto(
        same_byte(case_sensitive),
        bytes(name),
        stem_len(name),
        bytes(term),
        bytes(name).len() + 1,
    )
}

/// The points of all terms together; nothing where a term does not occur.
pub open spec fn terms_points(
    name: Seq<char>,
    terms: Seq<Seq<char>>,
    case_sensitive: bool,
) -> Option<u32>
    decreases terms.len(),
{
    if terms.len() == 0 {
        Some(0)
    } else {
        match (
            terms_points(name, terms.drop_last(), case_sensitive),
            fit(name, terms.last(), case_sensitive),
        ) {
            (Some(before), Some(points)) => Some(capped(before as int, points as int)),
            _ => None,
        }
    }
}

/// The small boost of shorter names.
pub open spec fn brevity(len: int) -> int {
    if len >= 200 {
        0
    } else {
        200 - len
    }
}

/// The score of a name in a substring search: all terms must occur in it. Whole
/// names and stems come before whole words, these before prefixes, and these
/// before substrings; shorter names get a small boost.
pub open spec fn substring_points(
    name: Seq<char>,
    terms: Seq<Seq<char>>,
    case_sensitive: bool,
) -> Option<u32> {
    if terms.len() == 0 {
        Some(1)
    } else {
        match terms_points(name, terms, case_sensitive) {
            Some(p) => Some(capped(p as int, brevity(bytes(name).len() as int))),
            None => None,
        }
    }
}

/// The text of all terms together.
pub open spec fn pattern_text(v: SpecView) -> Seq<char> {
    join(v.name_terms, seq![' '])
}

/// The score of a name that a regular expression matches: shorter is better.
pub open spec fn regex_points(len: nat) -> u32 {
    let n = len % 0x1_0000_0000;
    if n >= 1000 {
        0
    } else {
        (1000 - n) as u32
    }
}

/// The score of a name; nothing where it does not match.
pub open spec fn name_points(v: SpecView, name: Seq<char>) -> Option<u32> {
    match v.mode {
        MatchMode::Substring => substring_points(name, v.name_terms, v.case_sensitive),
        MatchMode::Fuzzy => if v.name_terms.len() == 0 {
            Some(1)
        } else {
            fuzzy_score(fuzzy_pattern(pattern_text(v), v.case_sensitive), name)
        },
        MatchMode::Regex => if v.name_terms.len() == 0 {
            Some(1)
        } else {
            match compiled_regex(pattern_text(v), !v.case_sensitive) {
                Some(re) if regex_matches(re, name) => Some(regex_points(bytes(name).len())),
                _ => None,
            }
        },
    }
}

/// Whether an entry passes every filter on its kind, name, size and date.
pub open spec fn passes(v: SpecView, category: Category, e: EntryView) -> bool {
    &&& !e.deleted
    &&& (v.type_filter == TypeFilter::File ==> !e.dir)
    &&& (v.type_filter == TypeFilter::Folder ==> e.dir)
    &&& category.holds(e.name, e.dir)
    &&& v.exts.len() > 0 ==> (lower_extension(e.name) matches Some(x) && v.exts.contains(x))
    &&& v.size_min matches Some(min) ==> !e.dir && e.size >= min
    &&& v.size_max matches Some(max) ==> !e.dir && e.size <= max
    &&& v.date_min matches Some(min) ==> e.modified >= min
    &&& v.date_max matches Some(max) ==> e.modified < max
}

/// Whether a path contains every path term.
pub open spec fn path_fits(v: SpecView, path: Seq<char>) -> bool {
    forall|i: int|
        0 <= i < v.path_terms.len() ==> contains_with(
            same_byte(v.case_sensitive),
            bytes(path),
            bytes(#[trigger] v.path_terms[i]),
        )
}

/// The score of an entry; nothing where it is no match.
pub open spec fn entry_points(
    index: IndexView,
    v: SpecView,
    category: Category,
    i: int,
) -> Option<u32> {
    if passes(v, category, index.entries[i]) && path_fits(v, path_at(index.entries, i)) {
        name_points(v, index.entries[i].name)
    } else {
        None
    }
}

fn boundary(b: u8) -> (r: bool)
    ensures
        r == is_boundary(b),
{
    !((48 <= b && b <= 57) || (65 <= b && b <= 90) || (97 <= b && b <= 122))
}

proof fn lemma_extension_bytes(name: Seq<char>)
    ensures
        extension(name) matches Some(e) ==> bytes(e).len() < bytes(name).len(),
{
    if let Some(e) = extension(name) {
        let dot = last_of(name, '.');
        lemma_last_of(name, '.');
        lemma_skip_bytes(name, dot + 1);
    }
}

/// Skipping characters drops at least one byte each.
proof fn lemma_skip_bytes(s: Seq<char>, n: int)
    requires
        0 <= n <= s.len(),
    ensures
        bytes(s.skip(n)).len() + n <= bytes(s).len(),
    decreases n,
{
    if n == 0 {
        assert(s.skip(0) =~= s);
    } else {
        lemma_skip_bytes(s.drop_first(), n - 1);
        assert(s.drop_first().skip(n - 1) =~= s.skip(n));
        assert(bytes(s).len() >= 1 + bytes(s.drop_first()).len());
    }
}

/// What a term is worth at a position where it stands.
fn points_at(h: &[u8], stem: usize, pos: usize, n: usize) -> (r: u32)
    requires
        pos + n <= h@.len(),
    ensures
        r == term_points(h@, stem as int, pos as int, n as int),
{
    let len: usize = h.len();
    let end: usize = pos + n;
    let start_ok = pos == 0 || boundary(h[pos - 1]);
    let end_ok = end == len || boundary(h[end]);
    if pos == 0 && end == len {
        5000
    } else if pos == 0 && end == stem {
        4000
    } else if pos == 0 && end_ok {
        1500
    } else if start_ok && end_ok {
        700
    } else if pos == 0 {
        400
    } else {
        100
    }
}

/// What a term is worth where it fits best.
fn best_fit(h: &[u8], stem: usize, n: &[u8], case_sensitive: bool) -> (r: Option<u32>)
    ensures
        r == best_upto(
            same_byte(case_sensitive),
            h@,
            stem as int,
            n@,
            h@.len() + 1,
        ),
{
    let ghost same = same_byte(case_sensitive);
    let len: usize = h.len();
    let mut best: Option<u32> = None;
    let mut i: usize = 0;
    while n.len() <= len && i <= len - n.len()
        invariant
            len == h@.len(),
            same == same_byte(case_sensitive),
            n@.len() <= len ==> i <= len - n@.len(),
            n@.len() > len ==> i == 0,
            best == best_upto(same, h@, stem as int, n@, i as nat),
        decreases len + 1 - i,
    {
        if stands_here(h, n, i, case_sensitive) {
            let points = points_at(h, stem, i, n.len());
            best = match best {
                Some(b) if b >= points => Some(b),
                _ => Some(points),
            };
        }
        if i == len - n.len() {
            proof {
                lemma_no_room(same, h@, stem as int, n@, (i + 1) as nat);
            }
            return best;
        }
        i = i + 1;
    }
    proof {
        lemma_no_room(same, h@, stem as int, n@, 0);
    }
    best
}

/// Positions from which a term would not fit in add nothing.
proof fn lemma_no_room(
    same: spec_fn(u8, u8) -> bool,
    name: Seq<u8>,
    stem: int,
    term: Seq<u8>,
    from: nat,
)
    requires
        from <= name.len() + 1,
        from + term.len() > name.len(),
    ensures
        best_upto(same, name, stem, term, name.len() + 1) == best_upto(
            same,
            name,
            stem,
            term,
            from,
        ),
    decreases name.len() + 1 - from,
{
    if from < name.len() + 1 {
        lemma_no_room(same, name, stem, term, from + 1);
    }
}

/// All terms must appear in the name. Ranking (searching "dog"):
///   exact name          "dog"                  best
///   exact stem          "dog.png"
///   word at the start   "dog park.jpg"
///   word anywhere       "my dog photos.png"
///   prefix of a name    "dogecoin.pdf"
///   buried substring    "hotdog_recipes.txt"   worst
/// A term that occurs more than once counts where it fits best. Shorter names get
/// a small boost as a tiebreaker.
pub fn substring_score(name: &str, spec: &SearchSpec) -> (r: Option<u32>)
    ensures
        r == substring_points(name@, spec@.name_terms, spec@.case_sensitive),
{
    if spec.name_terms.len() == 0 {
        return Some(1);
    }
    let h = name.as_bytes();
    let len: usize = h.len();
    proof {
        lemma_extension_bytes(name@);
    }
    let stem: usize = match extension_of(name) {
        Some(e) => len - e.as_bytes().len() - 1,
        None => len,
    };
    let ghost terms = spec@.name_terms;
    let mut score: u32 = 0;
    for i in 0..spec.name_terms.len()
        invariant
            h@ == bytes(name@),
            len == h@.len(),
            stem == stem_len(name@),
            terms == views(spec.name_terms@),
            terms_points(name@, terms.take(i as int), spec.case_sensitive) == Some(score),
    {
        assert(terms.take(i + 1).drop_last() =~= terms.take(i as int));
        assert(terms.take(i + 1).last() == spec.name_terms@[i as int]@);
        let term = spec.name_terms[i].as_str();
        let n = term.as_bytes();
        let points = match best_fit(h, stem, n, spec.case_sensitive) {
            Some(p) => p,
            None => {
                proof {
                    lemma_terms_none(name@, terms, spec.case_sensitive, i + 1);
                }
                return None;
            },
        };
        score = score.saturating_add(points);
    }
    assert(terms.take(terms.len() as int) =~= terms);
    let boost: u32 = if len >= 200 {
        0
    } else {
        200 - len as u32
    };
    Some(score.saturating_add(boost))
}

/// A term that does not occur leaves no score, whatever follows it.
proof fn lemma_terms_none(name: Seq<char>, terms: Seq<Seq<char>>, case_sensitive: bool, n: int)
    requires
        0 <= n <= terms.len(),
        terms_points(name, terms.take(n), case_sensitive) is None,
    ensures
        terms_points(name, terms, case_sensitive) is None,
    decreases terms.len() - n,
{
    if n < terms.len() {
        assert(terms.take(n + 1).drop_last() =~= terms.take(n));
        lemma_terms_none(name, terms, case_sensitive, n + 1);
    } else {
        assert(terms.take(n) =~= terms);
    }
}

// ---------------------------------------------------------------------------
// Running a search
// ---------------------------------------------------------------------------

/// What a search has compiled before it looks at entries.
pub struct Plan {
    regex: Option<regex::Regex>,
    pattern: Option<nucleo_matcher::pattern::Pattern>,
}

impl Plan {
    /// Whether the plan belongs to a search.
    pub closed spec fn fits(self, v: SpecView) -> bool {
        v.name_terms.len() > 0 ==> {
            &&& v.mode == MatchMode::Regex ==> self.regex is Some && self.regex == compiled_regex(
                pattern_text(v),
                !v.case_sensitive,
            )
            &&& v.mode == MatchMode::Fuzzy ==> self.pattern == Some(
                fuzzy_pattern(pattern_text(v), v.case_sensitive),
            )
        }
    }
}

/// Whether the search asks for a regular expression that is none.
pub open spec fn bad_regex(v: SpecView) -> bool {
    v.mode == MatchMode::Regex && v.name_terms.len() > 0 && compiled_regex(
        pattern_text(v),
        !v.case_sensitive,
    ) is None
}

/// Whether a name of a given length can be scored against a pattern whose heaviest
/// word has a given weight.
pub open spec fn can_score(weight: nat, name: nat) -> bool {
    name <= u32::MAX && (weight <= MAX_FUZZY || name <= MAX_FUZZY)
}

/// The limits of fuzzy matching: on the pattern and on the names.
pub open spec fn within_limits(index: IndexView, v: SpecView) -> bool {
    &&& index.entries.len() <= NO_PARENT
    &&& v.mode == MatchMode::Fuzzy ==> {
        &&& pattern_text(v).len() <= MAX_PATTERN
        &&& forall|i: int|
            0 <= i < index.entries.len() ==> can_score(
                heaviest(pattern_text(v)),
                (#[trigger] index.entries[i]).name.len(),
            )
    }
}

proof fn lemma_bytes_count(s: Seq<char>)
    ensures
        s.len() <= bytes(s).len(),
    decreases s.len(),
{
    if s.len() > 0 {
        lemma_bytes_count(s.drop_first());
    }
}

/// What the heaviest word of a fuzzy pattern weighs.
fn heaviest_word(pattern: &str) -> (r: usize)
    requires
        pattern@.len() <= MAX_PATTERN,
    ensures
        r == heaviest(pattern@),
{
    let mut most: usize = 0;
    let mut last: usize = 0;
    let mut escaped = false;
    for c in it: pattern.chars()
        invariant
            it.seq() == pattern@,
            pattern@.len() <= MAX_PATTERN,
            weighed(pattern@.take(it.index() as int)) == (most as nat, last as nat),
            last <= most <= 2 * it.index(),
            escaped == (it.index() > 0 && pattern@[it.index() - 1] == '\\'),
    {
        let ghost n = it.index() as int;
        assert(pattern@.take(n + 1).drop_last() =~= pattern@.take(n));
        assert(pattern@.take(n + 1).last() == c);
        assert(n > 0 ==> pattern@.take(n).last() == pattern@[n - 1]);
        if c == ' ' && !escaped {
            last = 0;
        } else {
            last = last + if c == '\\' {
                2
            } else {
                1
            };
            if last > most {
                most = last;
            }
        }
        escaped = c == '\\';
    }
    assert(pattern@.take(pattern@.len() as int) =~= pattern@);
    most
}

/// Whether a search keeps within the limits of fuzzy matching.
pub fn keeps_limits(index: &Index, spec: &SearchSpec) -> (r: bool)
    ensures
        r == within_limits(index@, spec@),
{
    if index.entries.len() as u64 > NO_PARENT as u64 {
        return false;
    }
    if spec.mode != MatchMode::Fuzzy {
        return true;
    }
    proof {
        reveal_strlit(" ");
        assert(" "@ =~= seq![' ']);
    }
    let text = joined(spec.name_terms.as_slice(), " ");
    if text.as_str().unicode_len() > MAX_PATTERN {
        return false;
    }
    let weight: usize = heaviest_word(text.as_str());
    let most: u64 = if weight <= MAX_FUZZY {
        u32::MAX as u64
    } else {
        MAX_FUZZY as u64
    };
    for i in 0..index.entries.len()
        invariant
            spec@.mode == MatchMode::Fuzzy,
            pattern_text(spec@).len() <= MAX_PATTERN,
            weight == heaviest(pattern_text(spec@)),
            most == (if weight <= MAX_FUZZY {
                u32::MAX as int
            } else {
                MAX_FUZZY as int
            }),
            forall|j: int|
                0 <= j < i ==> can_score(
                    heaviest(pattern_text(spec@)),
                    (#[trigger] index@.entries[j]).name.len(),
                ),
    {
        let name = index.entries[i].name.as_str();
        proof {
            assert(index@.entries[i as int].name == name@);
            lemma_bytes_count(name@);
        }
        if name.as_bytes().len() as u64 > most && name.unicode_len() as u64 > most {
            return false;
        }
    }
    true
}

/// Compiles what a search needs; nothing comes of a bad regular expression.
pub fn prepare(spec: &SearchSpec) -> (r: Option<Plan>)
    requires
        spec@.mode == MatchMode::Fuzzy ==> pattern_text(spec@).len() <= MAX_PATTERN,
    ensures
        r is None <==> bad_regex(spec@),
        r matches Some(plan) ==> plan.fits(spec@),
{
    let mut plan = Plan { regex: None, pattern: None };
    if spec.name_terms.len() == 0 {
        return Some(plan);
    }
    proof {
        reveal_strlit(" ");
        assert(" "@ =~= seq![' ']);
    }
    let text = joined(spec.name_terms.as_slice(), " ");
    match spec.mode {
        MatchMode::Regex => {
            let compiled = compile_regex(text.as_str(), !spec.case_sensitive);
            if compiled.is_none() {
                return None;
            }
            plan.regex = compiled;
        },
        MatchMode::Fuzzy => {
            plan.pattern = Some(parse_pattern(text.as_str(), spec.case_sensitive));
        },
        MatchMode::Substring => {},
    }
    Some(plan)
}

/// Whether a path contains every path term.
fn path_matches(spec: &SearchSpec, path: &str) -> (r: bool)
    ensures
        r == path_fits(spec@, path@),
{
    for i in 0..spec.path_terms.len()
        invariant
            forall|j: int|
                0 <= j < i ==> contains_with(
                    same_byte(spec.case_sensitive),
                    bytes(path@),
                    bytes(#[trigger] spec@.path_terms[j]),
                ),
    {
        assert(spec@.path_terms[i as int] == spec.path_terms@[i as int]@);
        let term = spec.path_terms[i].as_str();
        let ok = if spec.case_sensitive {
            contains_text(path, term)
        } else {
            contains_ignore_case(path, term)
        };
        if !ok {
            return false;
        }
    }
    true
}

/// Whether an entry passes every filter on its kind, name, size and date.
fn passes_filters(spec: &SearchSpec, category: Category, e: &crate::index::Entry) -> (r: bool)
    ensures
        r == passes(spec@, category, e@),
{
    let is_dir = e.is_dir();
    if e.is_deleted() || (spec.type_filter == TypeFilter::File && is_dir) || (spec.type_filter
        == TypeFilter::Folder && !is_dir) || !category.matches(e.name.as_str(), is_dir) {
        return false;
    }
    if spec.exts.len() > 0 {
        match lower_extension_of(e.name.as_str()) {
            Some(x) => {
                if !listed_string(spec.exts.as_slice(), x.as_str()) {
                    return false;
                }
            },
            None => {
                return false;
            },
        }
    }
    if let Some(min) = spec.size_min {
        if is_dir || e.size < min {
            return false;
        }
    }
    if let Some(max) = spec.size_max {
        if is_dir || e.size > max {
            return false;
        }
    }
    if let Some(min) = spec.date_min {
        if e.modified < min {
            return false;
        }
    }
    if let Some(max) = spec.date_max {
        if e.modified >= max {
            return false;
        }
    }
    true
}

/// The score of a name; nothing where it does not match.
fn score_name(
    spec: &SearchSpec,
    plan: &Plan,
    name: &str,
    matcher: &mut nucleo_matcher::Matcher,
) -> (r: Option<u32>)
    requires
        plan.fits(spec@),
        spec@.mode == MatchMode::Fuzzy ==> can_score(heaviest(pattern_text(spec@)), name@.len()),
    ensures
        r == name_points(spec@, name@),
{
    if spec.name_terms.len() == 0 {
        return Some(1);
    }
    match spec.mode {
        MatchMode::Substring => substring_score(name, spec),
        MatchMode::Fuzzy => match &plan.pattern {
            Some(pattern) => score_text(pattern, name, matcher),
            None => None,
        },
        MatchMode::Regex => match &plan.regex {
            Some(re) => {
                if regex_is_match(re, name) {
                    let len = (name.as_bytes().len() as u64 % 0x1_0000_0000) as u32;
                    Some(1000u32.saturating_sub(len))
                } else {
                    None
                }
            },
            None => None,
        },
    }
}

/// The score of an entry; nothing where it is no match. The full path is put
/// together only when it is needed.
fn score_entry(
    index: &Index,
    spec: &SearchSpec,
    category: Category,
    plan: &Plan,
    i: usize,
    matcher: &mut nucleo_matcher::Matcher,
) -> (r: Option<u32>)
    requires
        i < index@.entries.len(),
        within_limits(index@, spec@),
        plan.fits(spec@),
    ensures
        r == entry_points(index@, spec@, category, i as int),
{
    let e = &index.entries[i];
    assert(index@.entries[i as int] == e@);
    if !passes_filters(spec, category, e) {
        return None;
    }
    let score = score_name(spec, plan, e.name.as_str(), matcher);
    if score.is_some() && spec.needs_path() {
        let path = index.full_path_string(i as u32);
        if !path_matches(spec, path.as_str()) {
            return None;
        }
    }
    score
}

/// Scores the entries from `start` to `end` in parallel. `rayon` calls
/// `score_entry` once for each of them, with working memory of its own for each
/// thread, and `collect` keeps the results in the order of the entries.
#[verifier::external_body]
fn score_range(
    index: &Index,
    spec: &SearchSpec,
    category: Category,
    plan: &Plan,
    start: usize,
    end: usize,
) -> (r: Vec<Option<u32>>)
    requires
        start <= end <= index@.entries.len(),
        within_limits(index@, spec@),
        plan.fits(spec@),
    ensures
        r@.len() == end - start,
        forall|k: int|
            0 <= k < r@.len() ==> #[trigger] r@[k] == entry_points(
                index@,
                spec@,
                category,
                start + k,
            ),
{
    (start..end)
        .into_par_iter()
        .map_init(new_matcher, |matcher, i| score_entry(index, spec, category, plan, i, matcher))
        .collect()
}

/// The matches among the first `n` entries, in index order.
pub open spec fn matches_upto(
    index: IndexView,
    v: SpecView,
    category: Category,
    n: nat,
) -> Seq<(u32, u32)>
    decreases n,
{
    if n == 0 {
        Seq::empty()
    } else {
        let before = matches_upto(index, v, category, (n - 1) as nat);
        match entry_points(index, v, category, n - 1) {
            Some(p) => before.push(((n - 1) as u32, p)),
            None => before,
        }
    }
}

/// The live entries among the first `n`, all with the same score.
pub open spec fn live_upto(index: IndexView, n: nat) -> Seq<(u32, u32)>
    decreases n,
{
    if n == 0 {
        Seq::empty()
    } else if index.entries[n - 1].deleted {
        live_upto(index, (n - 1) as nat)
    } else {
        live_upto(index, (n - 1) as nat).push(((n - 1) as u32, 0))
    }
}

/// All matches of a search, in index order. A search that asks for nothing in no
/// category shows the index in its natural order.
pub open spec fn all_matches(index: IndexView, v: SpecView, category: Category) -> Seq<
    (u32, u32),
> {
    if v.asks_nothing() && category == Category::All {
        live_upto(index, index.entries.len())
    } else {
        matches_upto(index, v, category, index.entries.len())
    }
}

/// Whether an outcome shows the best `max` of the given matches.
pub open spec fn is_outcome(
    o: SearchOutcome,
    index: IndexView,
    all: Seq<(u32, u32)>,
    max: nat,
) -> bool {
    &&& o.total == all.len()
    &&& o.truncated == (all.len() > o.hits@.len())
    &&& exists|top: Seq<(u32, u32)>| #[trigger]
        is_top(top, all, max) && hit_views(o.hits@) == top.map_values(
            |m: (u32, u32)| hit_for(index, m),
        )
}

proof fn lemma_matches(index: IndexView, v: SpecView, category: Category, n: nat)
    requires
        n <= index.entries.len() <= NO_PARENT,
    ensures
        forall|i: int|
            0 <= i < matches_upto(index, v, category, n).len() ==> (#[trigger] matches_upto(
                index,
                v,
                category,
                n,
            )[i]).0 < n,
        distinct(matches_upto(index, v, category, n)),
        matches_upto(index, v, category, n).len() <= n,
    decreases n,
{
    if n > 0 {
        lemma_matches(index, v, category, (n - 1) as nat);
    }
}

proof fn lemma_live(index: IndexView, n: nat)
    requires
        n <= index.entries.len() <= NO_PARENT,
    ensures
        forall|i: int|
            0 <= i < live_upto(index, n).len() ==> (#[trigger] live_upto(index, n)[i]).0 < n
                && live_upto(index, n)[i].1 == 0,
        forall|i: int, j: int|
            0 <= i < j < live_upto(index, n).len() ==> live_upto(index, n)[i].0 < live_upto(
                index,
                n,
            )[j].0,
        live_upto(index, n).len() == crate::index::live(index.entries.take(n as int)),
    decreases n,
{
    if n > 0 {
        lemma_live(index, (n - 1) as nat);
        let e = index.entries;
        assert(e.take(n as int).drop_last() =~= e.take(n - 1));
        assert(e.take(n as int).last() == e[n - 1]);
    } else {
        assert(index.entries.take(0) =~= Seq::<EntryView>::empty());
    }
}

fn make_hit(index: &Index, idx: u32, score: u32) -> (r: Hit)
    requires
        idx < index@.entries.len(),
    ensures
        r@ == hit_for(index@, (idx, score)),
{
    let entry = &index.entries[idx as usize];
    assert(index@.entries[idx as int] == entry@);
    let path = index.full_path_string(idx);
    Hit {
        idx,
        score,
        name: entry.name.clone(),
        path,
        is_dir: entry.is_dir(),
        size: entry.size,
        modified: entry.modified,
        content_line: None,
    }
}

fn make_hits(index: &Index, top: &[(u32, u32)]) -> (r: Vec<Hit>)
    requires
        forall|i: int| 0 <= i < top@.len() ==> (#[trigger] top@[i]).0 < index@.entries.len(),
    ensures
        hit_views(r@) == top@.map_values(|m: (u32, u32)| hit_for(index@, m)),
{
    let mut r: Vec<Hit> = Vec::new();
    let ghost shape = |m: (u32, u32)| hit_for(index@, m);
    for i in 0..top.len()
        invariant
            shape == (|m: (u32, u32)| hit_for(index@, m)),
            forall|i: int| 0 <= i < top@.len() ==> (#[trigger] top@[i]).0 < index@.entries.len(),
            hit_views(r@) == top@.take(i as int).map_values(shape),
    {
        let ghost before = r@;
        let h = make_hit(index, top[i].0, top[i].1);
        r.push(h);
        assert(hit_views(r@) =~= hit_views(before).push(h@));
        assert(top@.take(i + 1).map_values(shape) =~= top@.take(i as int).map_values(shape).push(
            h@,
        ));
    }
    assert(top@.take(top@.len() as int) =~= top@);
    r
}

/// Ranks matches and shows the best `max` of them.
pub fn rank(index: &Index, scored: &[(u32, u32)], max: usize) -> (o: SearchOutcome)
    requires
        distinct(scored@),
        forall|i: int|
            0 <= i < scored@.len() ==> (#[trigger] scored@[i]).0 < index@.entries.len(),
    ensures
        is_outcome(o, index@, scored@, max as nat),
{
    let total: usize = scored.len();
    let top = top_ranked(scored, max);
    assert forall|i: int| 0 <= i < top@.len() implies (#[trigger] top@[i]).0
        < index@.entries.len() by {
        assert(scored@.contains(top@[i]));
    }
    let hits = make_hits(index, top.as_slice());
    let truncated = total > hits.len();
    assert(is_top(top@, scored@, max as nat));
    SearchOutcome { hits, total, truncated }
}

/// The index in its natural order: the first `max` live entries.
fn natural_order(index: &Index, max: usize) -> (o: SearchOutcome)
    requires
        index@.entries.len() <= NO_PARENT,
    ensures
        is_outcome(o, index@, live_upto(index@, index@.entries.len()), max as nat),
{
    let mut top: Vec<(u32, u32)> = Vec::new();
    let ghost all = live_upto(index@, index@.entries.len());
    let mut i: usize = 0;
    let n: usize = index.entries.len();
    while i < n && top.len() < max
        invariant
            i <= n,
            n == index@.entries.len(),
            n <= NO_PARENT,
            top@.len() <= max,
            top@ == live_upto(index@, i as nat),
        decreases n - i,
    {
        assert(index.entries@[i as int]@ == index@.entries[i as int]);
        if !index.entries[i].is_deleted() {
            top.push((i as u32, 0));
        }
        i = i + 1;
    }
    proof {
        lemma_live(index@, n as nat);
        lemma_live(index@, i as nat);
        lemma_live_prefix(index@, i as nat, n as nat);
        assert(index@.entries.take(n as int) =~= index@.entries);
        assert forall|k: int| 0 <= k < top@.len() implies all.contains(#[trigger] top@[k]) by {
            assert(all[k] == top@[k]);
        }
        assert forall|k: int, j: int|
            0 <= k < all.len() && 0 <= j < top@.len() && !top@.contains(all[k]) implies ranks_before(
            #[trigger] top@[j],
            #[trigger] all[k],
        ) by {
            assert(all[j] == top@[j]);
            if k < top@.len() {
                assert(top@[k] == all[k]);
            }
        }
        assert(is_top(top@, all, max as nat));
    }
    let hits = make_hits(index, top.as_slice());
    let total = index.live_count();
    let truncated = total > hits.len();
    SearchOutcome { hits, total, truncated }
}

proof fn lemma_live_prefix(index: IndexView, i: nat, n: nat)
    requires
        i <= n,
    ensures
        live_upto(index, i).len() <= live_upto(index, n).len(),
        forall|k: int|
            0 <= k < live_upto(index, i).len() ==> live_upto(index, n)[k] == live_upto(index, i)[k],
    decreases n,
{
    if i < n {
        lemma_live_prefix(index, i, (n - 1) as nat);
    }
}

/// Entries that are scored between two looks at the cancellation counter.
pub const BLOCK: usize = 65_536;

/// Whether a search of the given generation is out of date, with the shared
/// counter seen at `seen`.
pub fn is_stale(generation: u64, seen: u64) -> (r: bool)
    ensures
        r == (seen != generation),
{
    seen != generation
}

/// What a search found, unless it is out of date.
pub fn unless_stale<T>(found: T, stale: bool) -> (r: Option<T>)
    ensures
        r == (if stale {
            None
        } else {
            Some(found)
        }),
{
    if stale {
        None
    } else {
        Some(found)
    }
}

/// Whether a newer search has taken over: the shared counter has moved on. Other
/// threads move the counter, so nothing is known here of what it reads.
fn cancelled(generation: u64, current: &AtomicU64) -> bool {
    is_stale(generation, current.load(Ordering::Relaxed))
}

/// Appends the matches among a block of scores.
fn collect_block(
    scores: &[Option<u32>],
    start: usize,
    scored: &mut Vec<(u32, u32)>,
    index: &Index,
    spec: &SearchSpec,
    category: Category,
)
    requires
        start + scores@.len() <= index@.entries.len() <= NO_PARENT,
        forall|k: int|
            0 <= k < scores@.len() ==> #[trigger] scores@[k] == entry_points(
                index@,
                spec@,
                category,
                start + k,
            ),
        old(scored)@ == matches_upto(index@, spec@, category, start as nat),
    ensures
        final(scored)@ == matches_upto(
            index@,
            spec@,
            category,
            (start + scores@.len()) as nat,
        ),
{
    for k in 0..scores.len()
        invariant
            start + scores@.len() <= index@.entries.len() <= NO_PARENT,
            forall|k: int|
                0 <= k < scores@.len() ==> #[trigger] scores@[k] == entry_points(
                    index@,
                    spec@,
                    category,
                    start + k,
                ),
            scored@ == matches_upto(index@, spec@, category, (start + k) as nat),
    {
        if let Some(p) = scores[k] {
            scored.push(((start + k) as u32, p));
        }
    }
}

/// Scores one more block of entries and collects the matches among them. Returns
/// where the next block starts.
pub fn match_block(
    index: &Index,
    spec: &SearchSpec,
    category: Category,
    plan: &Plan,
    start: usize,
    scored: &mut Vec<(u32, u32)>,
) -> (end: usize)
    requires
        within_limits(index@, spec@),
        plan.fits(spec@),
        start < index@.entries.len(),
        old(scored)@ == matches_upto(index@, spec@, category, start as nat),
    ensures
        start < end <= index@.entries.len(),
        end - start == BLOCK || end == index@.entries.len(),
        final(scored)@ == matches_upto(index@, spec@, category, end as nat),
{
    let n: usize = index.entries.len();
    let end: usize = if n - start > BLOCK {
        start + BLOCK
    } else {
        n
    };
    let scores = score_range(index, spec, category, plan, start, end);
    collect_block(scores.as_slice(), start, scored, index, spec, category);
    end
}

/// Runs the search. `generation` and `current` implement cancellation: if the
/// shared counter moves past this search's generation, nothing is returned.
pub fn execute(
    index: &Index,
    spec: &SearchSpec,
    category: Category,
    max_results: usize,
    generation: u64,
    current: &AtomicU64,
) -> (r: Option<SearchOutcome>)
    requires
        within_limits(index@, spec@),
    ensures
        r matches Some(o) ==> is_outcome(
            o,
            index@,
            all_matches(index@, spec@, category),
            max_results as nat,
        ),
        spec@.asks_nothing() && category == Category::All ==> r is Some,
        bad_regex(spec@) ==> r is Some,
{
    if spec.is_empty() && category == Category::All {
        return Some(natural_order(index, max_results));
    }
    let n: usize = index.entries.len();
    let ghost v = spec@;
    let mut scored: Vec<(u32, u32)> = Vec::new();
    let plan = match prepare(spec) {
        Some(plan) => plan,
        None => {
            proof {
                lemma_bad_regex(index@, v, category, n as nat);
            }
            return Some(rank(index, scored.as_slice(), max_results));
        },
    };
    let mut start: usize = 0;
    while start < n
        invariant
            start <= n,
            n == index@.entries.len(),
            v == spec@,
            within_limits(index@, v),
            plan.fits(v),
            scored@ == matches_upto(index@, v, category, start as nat),
            !bad_regex(v),
            !(v.asks_nothing() && category == Category::All),
        decreases n - start,
    {
        if cancelled(generation, current) {
            return None;
        }
        start = match_block(index, spec, category, &plan, start, &mut scored);
    }
    if cancelled(generation, current) {
        return None;
    }
    proof {
        lemma_matches(index@, v, category, n as nat);
    }
    let outcome = rank(index, scored.as_slice(), max_results);
    unless_stale(outcome, cancelled(generation, current))
}

/// A bad regular expression matches nothing.
proof fn lemma_bad_regex(index: IndexView, v: SpecView, category: Category, n: nat)
    requires
        bad_regex(v),
    ensures
        matches_upto(index, v, category, n) == Seq::<(u32, u32)>::empty(),
    decreases n,
{
    if n > 0 {
        lemma_bad_regex(index, v, category, (n - 1) as nat);
    }
}

// ---------------------------------------------------------------------------
// Laws
// ---------------------------------------------------------------------------

/// A search for one term ranks by how the term fits before anything else: the
/// whole name, then the stem, a word at the start, a word elsewhere, a prefix, a
/// buried substring. Among names that it fits equally well, the shorter ranks
/// first, up to the length from which brevity no longer counts.
pub proof fn law_better_fit_ranks_first(
    a: Seq<char>,
    b: Seq<char>,
    term: Seq<char>,
    case_sensitive: bool,
    fa: u32,
    fb: u32,
)
    requires
        fit(a, term, case_sensitive) == Some(fa),
        fit(b, term, case_sensitive) == Some(fb),
    ensures
        substring_points(a, seq![term], case_sensitive) matches Some(sa) && substring_points(
            b,
            seq![term],
            case_sensitive,
        ) matches Some(sb) && {
            &&& fa > fb ==> sa > sb
            &&& fa == fb && bytes(a).len() < bytes(b).len() && bytes(a).len() < 200 ==> sa > sb
            &&& fa == fb && bytes(a).len() <= bytes(b).len() ==> sa >= sb
        },
{
    lemma_one_term(a, term, case_sensitive);
    lemma_one_term(b, term, case_sensitive);
    let same = same_byte(case_sensitive);
    lemma_best(same, bytes(a), stem_len(a), bytes(term), bytes(a).len() + 1);
    lemma_best(same, bytes(b), stem_len(b), bytes(term), bytes(b).len() + 1);
}

proof fn lemma_one_term(name: Seq<char>, term: Seq<char>, case_sensitive: bool)
    ensures
        terms_points(name, seq![term], case_sensitive) == fit(name, term, case_sensitive),
{
    reveal_with_fuel(terms_points, 2);
    assert(seq![term].drop_last() =~= Seq::<Seq<char>>::empty());
}

/// A term is worth what it is worth where it fits best: it occurs exactly when it
/// is worth something, it is worth that at one of the places where it occurs, and
/// at none of them is it worth more.
pub proof fn law_best_occurrence_counts(
    name: Seq<char>,
    term: Seq<char>,
    case_sensitive: bool,
    i: int,
)
    ensures
        fit(name, term, case_sensitive) is Some <==> contains_with(
            same_byte(case_sensitive),
            bytes(name),
            bytes(term),
        ),
        fit(name, term, case_sensitive) matches Some(p) ==> exists|k: int| #[trigger]
            stands_with(same_byte(case_sensitive), bytes(name), bytes(term), k) && p
                == term_points(bytes(name), stem_len(name), k, bytes(term).len() as int),
        stands_with(same_byte(case_sensitive), bytes(name), bytes(term), i) ==> (fit(
            name,
            term,
            case_sensitive,
        ) matches Some(p) && p >= term_points(
            bytes(name),
            stem_len(name),
            i,
            bytes(term).len() as int,
        )),
{
    let same = same_byte(case_sensitive);
    let h = bytes(name);
    let n = bytes(term);
    lemma_best(same, h, stem_len(name), n, h.len() + 1);
    if contains_with(same, h, n) {
        let k = choose|k: int| #[trigger] stands_with(same, h, n, k);
        assert(0 <= k < h.len() + 1);
    }
}

proof fn lemma_best(
    same: spec_fn(u8, u8) -> bool,
    name: Seq<u8>,
    stem: int,
    term: Seq<u8>,
    upto: nat,
)
    ensures
        best_upto(same, name, stem, term, upto) matches Some(p) ==> exists|k: int|
            0 <= k < upto && #[trigger] stands_with(same, name, term, k) && p == term_points(
                name,
                stem,
                k,
                term.len() as int,
            ),
        (exists|k: int| 0 <= k < upto && #[trigger] stands_with(same, name, term, k))
            ==> best_upto(same, name, stem, term, upto) is Some,
        forall|k: int|
            0 <= k < upto && #[trigger] stands_with(same, name, term, k) ==> best_upto(
                same,
                name,
                stem,
                term,
                upto,
            )->0 >= term_points(name, stem, k, term.len() as int),
    decreases upto,
{
    if upto > 0 {
        lemma_best(same, name, stem, term, (upto - 1) as nat);
        if stands_with(same, name, term, upto - 1) {
            assert(best_upto(same, name, stem, term, upto) is Some);
        }
    }
}

/// A name matches a substring search exactly when every term occurs in it.
pub proof fn law_every_term_must_occur(
    name: Seq<char>,
    terms: Seq<Seq<char>>,
    case_sensitive: bool,
)
    ensures
        substring_points(name, terms, case_sensitive) is Some <==> forall|i: int|
            0 <= i < terms.len() ==> contains_with(
                same_byte(case_sensitive),
                bytes(name),
                bytes(#[trigger] terms[i]),
            ),
{
    lemma_every_term(name, terms, case_sensitive);
}

proof fn lemma_every_term(name: Seq<char>, terms: Seq<Seq<char>>, case_sensitive: bool)
    ensures
        terms_points(name, terms, case_sensitive) is Some <==> forall|i: int|
            0 <= i < terms.len() ==> contains_with(
                same_byte(case_sensitive),
                bytes(name),
                bytes(#[trigger] terms[i]),
            ),
    decreases terms.len(),
{
    if terms.len() > 0 {
        let same = same_byte(case_sensitive);
        let front = terms.drop_last();
        lemma_every_term(name, front, case_sensitive);
        law_best_occurrence_counts(name, terms.last(), case_sensitive, 0);
        if terms_points(name, terms, case_sensitive) is Some {
            assert forall|i: int| 0 <= i < terms.len() implies contains_with(
                same,
                bytes(name),
                bytes(#[trigger] terms[i]),
            ) by {
                if i < front.len() {
                    assert(front[i] == terms[i]);
                }
            }
        } else if forall|i: int|
            0 <= i < terms.len() ==> contains_with(same, bytes(name), bytes(#[trigger] terms[i])) {
            assert forall|i: int| 0 <= i < front.len() implies contains_with(
                same,
                bytes(name),
                bytes(#[trigger] front[i]),
            ) by {
                assert(front[i] == terms[i]);
            }
            assert(terms[terms.len() - 1] == terms.last());
        }
    }
}

/// A search finds an entry exactly when the entry passes every filter and its
/// name matches, and with the score of that name.
pub proof fn law_search_finds_the_matching_entries(
    index: IndexView,
    v: SpecView,
    category: Category,
    i: int,
    p: u32,
)
    requires
        0 <= i < index.entries.len() <= NO_PARENT,
        !(v.asks_nothing() && category == Category::All),
    ensures
        all_matches(index, v, category).contains((i as u32, p)) <==> {
            &&& passes(v, category, index.entries[i])
            &&& path_fits(v, path_at(index.entries, i))
            &&& name_points(v, index.entries[i].name) == Some(p)
        },
{
    lemma_found(index, v, category, index.entries.len(), i, p);
}

proof fn lemma_found(index: IndexView, v: SpecView, category: Category, n: nat, i: int, p: u32)
    requires
        0 <= i < index.entries.len() <= NO_PARENT,
        n <= index.entries.len(),
    ensures
        matches_upto(index, v, category, n).contains((i as u32, p)) <==> i < n && entry_points(
            index,
            v,
            category,
            i,
        ) == Some(p),
    decreases n,
{
    let m = (i as u32, p);
    let now = matches_upto(index, v, category, n);
    if n > 0 {
        let last = (n - 1) as nat;
        let before = matches_upto(index, v, category, last);
        lemma_found(index, v, category, last, i, p);
        if before.contains(m) {
            let k = choose|k: int| 0 <= k < before.len() && before[k] == m;
            assert(now[k] == m);
        }
        if i == last && entry_points(index, v, category, i) == Some(p) {
            assert(now.last() == m);
        }
        if now.contains(m) && !before.contains(m) {
            let k = choose|k: int| 0 <= k < now.len() && now[k] == m;
            if k < before.len() {
                assert(before[k] == m);
            }
        }
    }
}

/// Where no more than `max` entries match, every one of them is shown.
pub proof fn law_all_matches_are_shown_when_they_fit(
    top: Seq<(u32, u32)>,
    all: Seq<(u32, u32)>,
    max: nat,
    m: (u32, u32),
)
    requires
        is_top(top, all, max),
        all.len() <= max,
        all.contains(m),
    ensures
        top.contains(m),
{
    assert(top.no_duplicates()) by {
        assert forall|i: int, j: int|
            0 <= i < top.len() && 0 <= j < top.len() && i != j implies top[i] != top[j] by {
            if i < j {
                assert(ranks_before(top[i], top[j]));
            } else {
                assert(ranks_before(top[j], top[i]));
            }
        }
    }
    if !top.contains(m) {
        let rest = all.to_set().remove(m);
        assert(top.to_set().subset_of(rest)) by {
            assert forall|x: (u32, u32)| top.to_set().contains(x) implies rest.contains(x) by {
                let i = choose|i: int| 0 <= i < top.len() && top[i] == x;
                assert(all.contains(top[i]));
            }
        }
        top.unique_seq_to_set();
        vstd::seq_lib::seq_to_set_is_finite(all);
        all.lemma_cardinality_of_set();
        vstd::set_lib::lemma_len_subset(top.to_set(), rest);
    }
}

proof fn lemma_outcome_rows(
    o: SearchOutcome,
    index: IndexView,
    all: Seq<(u32, u32)>,
    max: nat,
    top: Seq<(u32, u32)>,
)
    requires
        is_top(top, all, max),
        hit_views(o.hits@) == top.map_values(|m: (u32, u32)| hit_for(index, m)),
    ensures
        o.hits@.len() == top.len(),
        forall|i: int|
            0 <= i < top.len() ==> (#[trigger] o.hits@[i])@ == hit_for(index, top[i]),
{
    let rows = top.map_values(|m: (u32, u32)| hit_for(index, m));
    assert(rows.len() == top.len());
    assert forall|i: int| 0 <= i < top.len() implies (#[trigger] o.hits@[i])@ == hit_for(
        index,
        top[i],
    ) by {
        assert(hit_views(o.hits@)[i] == rows[i]);
    }
}

/// A search shows as many hits as it finds and is allowed to show, says whether
/// that is less than all, never shows an entry twice, and shows scores that do
/// not rise, in index order where they are equal.
pub proof fn law_hits_are_the_best_in_order(
    o: SearchOutcome,
    index: IndexView,
    v: SpecView,
    category: Category,
    max: nat,
)
    requires
        index.entries.len() <= NO_PARENT,
        is_outcome(o, index, all_matches(index, v, category), max),
    ensures
        o.hits@.len() == if o.total <= max {
            o.total as nat
        } else {
            max
        },
        o.truncated <==> o.total > o.hits@.len(),
        forall|i: int, j: int|
            0 <= i < j < o.hits@.len() ==> {
                let a = (#[trigger] o.hits@[i])@;
                let b = (#[trigger] o.hits@[j])@;
                a.idx != b.idx && (a.score > b.score || (a.score == b.score && a.idx < b.idx))
            },
{
    let all = all_matches(index, v, category);
    let top = choose|top: Seq<(u32, u32)>| #[trigger]
        is_top(top, all, max) && hit_views(o.hits@) == top.map_values(
            |m: (u32, u32)| hit_for(index, m),
        );
    lemma_outcome_rows(o, index, all, max, top);
    lemma_matches(index, v, category, index.entries.len());
    lemma_live(index, index.entries.len());
    assert forall|i: int, j: int| 0 <= i < j < o.hits@.len() implies {
        let a = (#[trigger] o.hits@[i])@;
        let b = (#[trigger] o.hits@[j])@;
        a.idx != b.idx && (a.score > b.score || (a.score == b.score && a.idx < b.idx))
    } by {
        assert(ranks_before(top[i], top[j]));
        assert(all.contains(top[i]) && all.contains(top[j]));
        let k = choose|k: int| 0 <= k < all.len() && all[k] == top[i];
        let n = choose|n: int| 0 <= n < all.len() && all[n] == top[j];
        assert(all[k].0 != all[n].0);
    }
}

/// A search that may show fewer hits finds as many, and shows the first of those
/// that it would show otherwise.
pub proof fn law_smaller_limit_shows_a_prefix(
    few: SearchOutcome,
    many: SearchOutcome,
    index: IndexView,
    all: Seq<(u32, u32)>,
    k: nat,
    n: nat,
)
    requires
        k <= n,
        is_outcome(few, index, all, k),
        is_outcome(many, index, all, n),
    ensures
        few.total == many.total,
        few.hits@.len() <= many.hits@.len(),
        hit_views(few.hits@) == hit_views(many.hits@).take(few.hits@.len() as int),
{
    let a = choose|top: Seq<(u32, u32)>| #[trigger]
        is_top(top, all, k) && hit_views(few.hits@) == top.map_values(
            |m: (u32, u32)| hit_for(index, m),
        );
    let b = choose|top: Seq<(u32, u32)>| #[trigger]
        is_top(top, all, n) && hit_views(many.hits@) == top.map_values(
            |m: (u32, u32)| hit_for(index, m),
        );
    lemma_outcome_rows(few, index, all, k, a);
    lemma_outcome_rows(many, index, all, n, b);
    let rows = hit_views(many.hits@).take(few.hits@.len() as int);
    assert forall|i: int| 0 <= i < few.hits@.len() implies hit_views(few.hits@)[i] == rows[i] by {
        lemma_top_same(a, b, all, k, n, i);
        assert(few.hits@[i]@ == hit_for(index, a[i]));
        assert(many.hits@[i]@ == hit_for(index, b[i]));
    }
    assert(hit_views(few.hits@) =~= rows);
}

/// A byte with the codes of slash and backslash exchanged.
spec fn turned_byte(b: u8) -> u8 {
    if b == 0x2f {
        0x5c
    } else if b == 0x5c {
        0x2f
    } else {
        b
    }
}

proof fn lemma_turned_scalar(c: char)
    ensures
        encode_scalar(turned_slash(c) as u32) == encode_scalar(c as u32).map_values(
            |b: u8| turned_byte(b),
        ),
{
    let n = c as u32;
    assert(n <= 0x7f ==> (n & 0x7F) as u8 == n) by (bit_vector);
    assert((0x2fu32 & 0x7F) as u8 == 0x2f && (0x5cu32 & 0x7F) as u8 == 0x5c) by (bit_vector);
    assert((0xC0u8 | ((n >> 6) & 0x1F) as u8) >= 0x80 && (0xE0u8 | ((n >> 12) & 0x0F) as u8) >= 0x80
        && (0xF0u8 | ((n >> 18) & 0x7) as u8) >= 0x80 && (0x80u8 | (n & 0x3F) as u8) >= 0x80 && (
    0x80u8 | ((n >> 6) & 0x3F) as u8) >= 0x80 && (0x80u8 | ((n >> 12) & 0x3F) as u8) >= 0x80)
        by (bit_vector);
    assert(encode_scalar(turned_slash(c) as u32) =~= encode_scalar(n).map_values(
        |b: u8| turned_byte(b),
    ));
}

proof fn lemma_turned_bytes(s: Seq<char>)
    ensures
        bytes(respelled(s)) == bytes(s).map_values(|b: u8| turned_byte(b)),
    decreases s.len(),
{
    let turn = |b: u8| turned_byte(b);
    if s.len() > 0 {
        lemma_turned_scalar(s[0]);
        lemma_turned_bytes(s.drop_first());
        assert(respelled(s).drop_first() =~= respelled(s.drop_first()));
        assert(respelled(s)[0] == turned_slash(s[0]));
        let first = encode_scalar(s[0] as u32);
        let rest = bytes(s.drop_first());
        assert((first + rest).map_values(turn) =~= first.map_values(turn) + rest.map_values(turn));
    } else {
        assert(bytes(respelled(s)) =~= bytes(s).map_values(turn));
    }
}

proof fn lemma_turned_stands(case_sensitive: bool, h: Seq<u8>, n: Seq<u8>, i: int)
    ensures
        stands_with(
            same_byte(case_sensitive),
            h.map_values(|b: u8| turned_byte(b)),
            n.map_values(|b: u8| turned_byte(b)),
            i,
        ) == stands_with(same_byte(case_sensitive), h, n, i),
{
    let same = same_byte(case_sensitive);
    let th = h.map_values(|b: u8| turned_byte(b));
    let tn = n.map_values(|b: u8| turned_byte(b));
    assert forall|a: u8, b: u8| #[trigger] same(turned_byte(a), turned_byte(b)) == same(a, b) by {}
    if 0 <= i && i + n.len() <= h.len() {
        assert forall|k: int| 0 <= k < n.len() implies same(#[trigger] th[i + k], tn[k]) == same(
            h[i + k],
            n[k],
        ) by {
            assert(th[i + k] == turned_byte(h[i + k]));
            assert(tn[k] == turned_byte(n[k]));
        }
        if stands_with(same, th, tn, i) {
            assert forall|k: int| 0 <= k < n.len() implies same(#[trigger] h[i + k], n[k]) by {
                assert(same(th[i + k], tn[k]));
            }
        }
    }
}

/// With its path terms respelled, a search finds a path exactly when the terms as
/// they were typed occur in the path as it is spelled with backslashes.
pub proof fn law_respelled_terms_fit_respelled_paths(v: SpecView, path: Seq<char>)
    ensures
        path_fits(v.respelled(), path) <==> path_fits(v, respelled(path)),
{
    let same = same_byte(v.case_sensitive);
    let w = v.respelled();
    lemma_turned_bytes(path);
    assert forall|i: int| 0 <= i < v.path_terms.len() implies contains_with(
        same,
        bytes(path),
        bytes(#[trigger] w.path_terms[i]),
    ) == contains_with(same, bytes(respelled(path)), bytes(v.path_terms[i])) by {
        let t = v.path_terms[i];
        assert(w.path_terms[i] == respelled(t));
        law_respelling_undoes_itself(t);
        lemma_turned_bytes(respelled(t));
        let h = bytes(path);
        let n = bytes(respelled(t));
        let th = bytes(respelled(path));
        let tn = bytes(t);
        if contains_with(same, h, n) {
            let k = choose|k: int| #[trigger] stands_with(same, h, n, k);
            lemma_turned_stands(v.case_sensitive, h, n, k);
            assert(stands_with(same, th, tn, k));
        }
        if contains_with(same, th, tn) {
            let k = choose|k: int| #[trigger] stands_with(same, th, tn, k);
            lemma_turned_stands(v.case_sensitive, h, n, k);
            assert(stands_with(same, h, n, k));
        }
    }
    if path_fits(w, path) {
        assert forall|i: int| 0 <= i < v.path_terms.len() implies contains_with(
            same,
            bytes(respelled(path)),
            bytes(#[trigger] v.path_terms[i]),
        ) by {
            assert(contains_with(same, bytes(path), bytes(w.path_terms[i])));
        }
    }
    if path_fits(v, respelled(path)) {
        assert forall|i: int| 0 <= i < w.path_terms.len() implies contains_with(
            same,
            bytes(path),
            bytes(#[trigger] w.path_terms[i]),
        ) by {
            assert(contains_with(same, bytes(respelled(path)), bytes(v.path_terms[i])));
        }
    }
}

/// Deleted entries are never found, whatever the search.
pub proof fn law_deleted_entries_are_not_found(
    index: IndexView,
    v: SpecView,
    category: Category,
    i: int,
)
    requires
        0 <= i < all_matches(index, v, category).len(),
        index.entries.len() <= NO_PARENT,
    ensures
        all_matches(index, v, category)[i].0 < index.entries.len(),
        !index.entries[all_matches(index, v, category)[i].0 as int].deleted,
{
    lemma_found_live(index, v, category, index.entries.len());
}

proof fn lemma_found_live(index: IndexView, v: SpecView, category: Category, n: nat)
    requires
        n <= index.entries.len() <= NO_PARENT,
    ensures
        forall|i: int|
            0 <= i < live_upto(index, n).len() ==> (#[trigger] live_upto(index, n)[i]).0 < n
                && !index.entries[live_upto(index, n)[i].0 as int].deleted,
        forall|i: int|
            0 <= i < matches_upto(index, v, category, n).len() ==> (#[trigger] matches_upto(
                index,
                v,
                category,
                n,
            )[i]).0 < n && passes(
                v,
                category,
                index.entries[matches_upto(index, v, category, n)[i].0 as int],
            ),
    decreases n,
{
    if n > 0 {
        let m = (n - 1) as nat;
        lemma_found_live(index, v, category, m);
        let la = live_upto(index, m);
        let lb = live_upto(index, n);
        assert forall|i: int| 0 <= i < lb.len() implies (#[trigger] lb[i]).0 < n
            && !index.entries[lb[i].0 as int].deleted by {
            if i < la.len() {
                assert(lb[i] == la[i]);
            }
        }
        let ma = matches_upto(index, v, category, m);
        let mb = matches_upto(index, v, category, n);
        assert forall|i: int| 0 <= i < mb.len() implies (#[trigger] mb[i]).0 < n && passes(
            v,
            category,
            index.entries[mb[i].0 as int],
        ) by {
            if i < ma.len() {
                assert(mb[i] == ma[i]);
            }
        }
    }
}

/// What a search shows is what was asked for. Every hit tells of one live entry
/// of the index, as that entry stands there, and the entry is of the kind, in the
/// category, with an extension, of a size and from a time that the search asks
/// for, has every path term in its path, and has a name that matches.
pub proof fn law_hits_are_what_was_asked_for(
    o: SearchOutcome,
    index: IndexView,
    v: SpecView,
    category: Category,
    max: nat,
    i: int,
)
    requires
        index.entries.len() <= NO_PARENT,
        is_outcome(o, index, all_matches(index, v, category), max),
        0 <= i < o.hits@.len(),
    ensures
        ({
            let h = o.hits@[i];
            let e = index.entries[h.idx as int];
            &&& h.idx < index.entries.len()
            &&& !e.deleted
            &&& h.name@ == e.name
            &&& h.is_dir == e.dir
            &&& h.size == e.size
            &&& h.modified == e.modified
            &&& h.path@ == path_at(index.entries, h.idx as int)
            &&& h.content_line is None
        }),
        v.type_filter == TypeFilter::File ==> !o.hits@[i].is_dir,
        v.type_filter == TypeFilter::Folder ==> o.hits@[i].is_dir,
        category == Category::Folders ==> o.hits@[i].is_dir,
        category == Category::Files ==> !o.hits@[i].is_dir,
        category != Category::All && category != Category::Folders && category != Category::Files
            ==> !o.hits@[i].is_dir && exists|k: int|
            0 <= k < category.extension_list().len() && ends_in(
                o.hits@[i].name@,
                #[trigger] category.extension_list()[k],
            ),
        v.exts.len() > 0 ==> exists|k: int|
            0 <= k < v.exts.len() && ends_in(o.hits@[i].name@, #[trigger] v.exts[k]),
        v.size_min matches Some(least) ==> !o.hits@[i].is_dir && least <= o.hits@[i].size,
        v.size_max matches Some(most) ==> !o.hits@[i].is_dir && o.hits@[i].size <= most,
        v.date_min matches Some(from) ==> from <= o.hits@[i].modified,
        v.date_max matches Some(to) ==> o.hits@[i].modified < to,
        forall|k: int|
            0 <= k < v.path_terms.len() ==> contains_with(
                same_byte(v.case_sensitive),
                bytes(o.hits@[i].path@),
                bytes(#[trigger] v.path_terms[k]),
            ),
        v.mode == MatchMode::Substring ==> forall|k: int|
            0 <= k < v.name_terms.len() ==> contains_with(
                same_byte(v.case_sensitive),
                bytes(o.hits@[i].name@),
                bytes(#[trigger] v.name_terms[k]),
            ),
        v.mode == MatchMode::Fuzzy && v.name_terms.len() > 0 ==> fuzzy_score(
            fuzzy_pattern(join(v.name_terms, seq![' ']), v.case_sensitive),
            o.hits@[i].name@,
        ) == Some(o.hits@[i].score),
        v.mode == MatchMode::Regex && v.name_terms.len() > 0 ==> (compiled_regex(
            join(v.name_terms, seq![' ']),
            !v.case_sensitive,
        ) matches Some(re) && regex_matches(re, o.hits@[i].name@)),
{
    let all = all_matches(index, v, category);
    let top = choose|top: Seq<(u32, u32)>| #[trigger]
        is_top(top, all, max) && hit_views(o.hits@) == top.map_values(
            |m: (u32, u32)| hit_for(index, m),
        );
    lemma_outcome_rows(o, index, all, max, top);
    let h = o.hits@[i];
    assert(h@ == hit_for(index, top[i]));
    assert(all.contains(top[i]));
    let n = choose|n: int| 0 <= n < all.len() && all[n] == top[i];
    lemma_found_live(index, v, category, index.entries.len());
    let idx = h.idx as int;
    let e = index.entries[idx];
    law_extension_is_the_end(e.name, lower_extension(e.name)->0);
    if !(v.asks_nothing() && category == Category::All) {
        lemma_found(index, v, category, index.entries.len(), idx, h.score);
        law_every_term_must_occur(e.name, v.name_terms, v.case_sensitive);
    }
}

/// A search misses nothing: where no more matches than may be shown, a live
/// entry is among the hits if it is of the kind, in the category, with an
/// extension, of a size and from a time that the search asks for, has every path
/// term in its path, and has a name that matches. In any case it counts.
pub proof fn law_search_misses_nothing(
    o: SearchOutcome,
    index: IndexView,
    v: SpecView,
    category: Category,
    max: nat,
    i: int,
)
    requires
        0 <= i < index.entries.len() <= NO_PARENT,
        is_outcome(o, index, all_matches(index, v, category), max),
        !index.entries[i].deleted,
        v.type_filter == TypeFilter::File ==> !index.entries[i].dir,
        v.type_filter == TypeFilter::Folder ==> index.entries[i].dir,
        category == Category::Folders ==> index.entries[i].dir,
        category == Category::Files ==> !index.entries[i].dir,
        category != Category::All && category != Category::Folders && category != Category::Files
            ==> !index.entries[i].dir && exists|k: int|
            0 <= k < category.extension_list().len() && !category.extension_list()[k].contains('.')
                && ends_in(index.entries[i].name, #[trigger] category.extension_list()[k]),
        v.exts.len() > 0 ==> exists|k: int|
            0 <= k < v.exts.len() && !v.exts[k].contains('.') && ends_in(
                index.entries[i].name,
                #[trigger] v.exts[k],
            ),
        v.size_min matches Some(least) ==> !index.entries[i].dir && least
            <= index.entries[i].size,
        v.size_max matches Some(most) ==> !index.entries[i].dir && index.entries[i].size <= most,
        v.date_min matches Some(from) ==> from <= index.entries[i].modified,
        v.date_max matches Some(to) ==> index.entries[i].modified < to,
        forall|k: int|
            0 <= k < v.path_terms.len() ==> contains_with(
                same_byte(v.case_sensitive),
                bytes(path_at(index.entries, i)),
                bytes(#[trigger] v.path_terms[k]),
            ),
        v.mode == MatchMode::Substring ==> forall|k: int|
            0 <= k < v.name_terms.len() ==> contains_with(
                same_byte(v.case_sensitive),
                bytes(index.entries[i].name),
                bytes(#[trigger] v.name_terms[k]),
            ),
        v.mode == MatchMode::Fuzzy && v.name_terms.len() > 0 ==> fuzzy_score(
            fuzzy_pattern(join(v.name_terms, seq![' ']), v.case_sensitive),
            index.entries[i].name,
        ) is Some,
        v.mode == MatchMode::Regex && v.name_terms.len() > 0 ==> (compiled_regex(
            join(v.name_terms, seq![' ']),
            !v.case_sensitive,
        ) matches Some(re) && regex_matches(re, index.entries[i].name)),
    ensures
        o.total > 0,
        max > 0 ==> o.hits@.len() > 0,
        o.total <= max ==> exists|k: int|
            0 <= k < o.hits@.len() && (#[trigger] o.hits@[k]).idx == i,
        o.total > max ==> forall|k: int|
            0 <= k < o.hits@.len() && (forall|n: int|
                0 <= n < o.hits@.len() ==> (#[trigger] o.hits@[n]).idx != i)
                ==> entry_score(index, v, category, i) <= (#[trigger] o.hits@[k]).score,
{
    let all = all_matches(index, v, category);
    let e = index.entries[i];
    if exists|k: int|
        0 <= k < v.exts.len() && !v.exts[k].contains('.') && ends_in(
            e.name,
            #[trigger] v.exts[k],
        ) {
        let k = choose|k: int|
            0 <= k < v.exts.len() && !v.exts[k].contains('.') && ends_in(
                e.name,
                #[trigger] v.exts[k],
            );
        law_extension_is_the_end(e.name, v.exts[k]);
    }
    let list = category.extension_list();
    if exists|k: int|
        0 <= k < list.len() && !list[k].contains('.') && ends_in(e.name, #[trigger] list[k]) {
        let k = choose|k: int|
            0 <= k < list.len() && !list[k].contains('.') && ends_in(e.name, #[trigger] list[k]);
        law_extension_is_the_end(e.name, list[k]);
    }
    law_every_term_must_occur(e.name, v.name_terms, v.case_sensitive);
    let p = entry_score(index, v, category, i);
    if v.asks_nothing() && category == Category::All {
        lemma_every_live_entry(index, index.entries.len(), i);
    } else {
        assert(passes(v, category, e));
        assert(entry_points(index, v, category, i) == Some(p));
        lemma_found(index, v, category, index.entries.len(), i, p);
    }
    let m = (i as u32, p);
    assert(all.contains(m));
    let top = choose|top: Seq<(u32, u32)>| #[trigger]
        is_top(top, all, max) && hit_views(o.hits@) == top.map_values(
            |m: (u32, u32)| hit_for(index, m),
        );
    lemma_outcome_rows(o, index, all, max, top);
    let at = choose|at: int| 0 <= at < all.len() && all[at] == m;
    if top.contains(m) {
        let k = choose|k: int| 0 <= k < top.len() && top[k] == m;
        assert(o.hits@[k]@ == hit_for(index, top[k]));
        assert(o.hits@[k].idx == i);
    } else {
        if all.len() <= max {
            law_all_matches_are_shown_when_they_fit(top, all, max, m);
        }
        assert forall|k: int| 0 <= k < o.hits@.len() implies p <= (#[trigger] o.hits@[k]).score by {
            assert(o.hits@[k]@ == hit_for(index, top[k]));
            assert(ranks_before(top[k], all[at]));
        }
    }
}

/// The score with which a search finds an entry that matches.
pub open spec fn entry_score(index: IndexView, v: SpecView, category: Category, i: int) -> u32 {
    if v.asks_nothing() && category == Category::All {
        0
    } else {
        name_points(v, index.entries[i].name)->0
    }
}

proof fn lemma_every_live_entry(index: IndexView, n: nat, i: int)
    requires
        0 <= i < n <= index.entries.len() <= NO_PARENT,
        !index.entries[i].deleted,
    ensures
        live_upto(index, n).contains((i as u32, 0u32)),
    decreases n,
{
    let now = live_upto(index, n);
    let before = live_upto(index, (n - 1) as nat);
    if i == n - 1 {
        assert(now.last() == (i as u32, 0u32));
    } else {
        lemma_every_live_entry(index, (n - 1) as nat, i);
        let k = choose|k: int| 0 <= k < before.len() && before[k] == (i as u32, 0u32);
        assert(now[k] == before[k]);
    }
}

/// How closely a term fits a name: as the whole name, as the part before the
/// extension, as the word that the name starts with, as a word somewhere, as the
/// start of the name, or as some part of it.
pub open spec fn closeness(name: Seq<char>, term: Seq<char>, case_sensitive: bool) -> int {
    let h = bytes(name);
    let n = bytes(term);
    let same = same_byte(case_sensitive);
    let first = stands_with(same, h, n, 0);
    if first && h.len() == n.len() {
        5
    } else if first && (extension(name) matches Some(e) && h.len() == n.len() + 1 + bytes(e).len()) {
        4
    } else if first && ends_word(h, n.len() as int) {
        3
    } else if exists|i: int| #[trigger]
        stands_with(same, h, n, i) && starts_word(h, i) && ends_word(h, i + n.len()) {
        2
    } else if first {
        1
    } else {
        0
    }
}

/// Whether no letter or digit stands before a place.
pub open spec fn starts_word(h: Seq<u8>, i: int) -> bool {
    i == 0 || !(48 <= h[i - 1] <= 57 || 65 <= h[i - 1] <= 90 || 97 <= h[i - 1] <= 122)
}

/// Whether no letter or digit stands at a place.
pub open spec fn ends_word(h: Seq<u8>, i: int) -> bool {
    i == h.len() || !(48 <= h[i] <= 57 || 65 <= h[i] <= 90 || 97 <= h[i] <= 122)
}

/// The name that a term fits more closely ranks first, whatever the lengths of
/// the names. Among names that it fits equally closely, the shorter ranks first,
/// as long as it has less than 200 bytes.
pub proof fn law_closer_fit_ranks_first(
    a: Seq<char>,
    b: Seq<char>,
    term: Seq<char>,
    case_sensitive: bool,
)
    requires
        contains_with(same_byte(case_sensitive), bytes(a), bytes(term)),
        contains_with(same_byte(case_sensitive), bytes(b), bytes(term)),
    ensures
        substring_points(a, seq![term], case_sensitive) matches Some(sa) && substring_points(
            b,
            seq![term],
            case_sensitive,
        ) matches Some(sb) && {
            let (ca, cb) = (closeness(a, term, case_sensitive), closeness(b, term, case_sensitive));
            &&& ca > cb ==> sa > sb
            &&& ca == cb && bytes(a).len() < bytes(b).len() && bytes(a).len() < 200 ==> sa > sb
            &&& ca == cb && bytes(a).len() <= bytes(b).len() ==> sa >= sb
        },
{
    lemma_closeness(a, term, case_sensitive);
    lemma_closeness(b, term, case_sensitive);
    let fa = fit(a, term, case_sensitive)->0;
    let fb = fit(b, term, case_sensitive)->0;
    law_better_fit_ranks_first(a, b, term, case_sensitive, fa, fb);
}

proof fn lemma_closeness(name: Seq<char>, term: Seq<char>, case_sensitive: bool)
    requires
        contains_with(same_byte(case_sensitive), bytes(name), bytes(term)),
    ensures
        fit(name, term, case_sensitive) matches Some(p) && {
            let c = closeness(name, term, case_sensitive);
            p == if c == 5 {
                5000int
            } else if c == 4 {
                4000
            } else if c == 3 {
                1500
            } else if c == 2 {
                700
            } else if c == 1 {
                400
            } else {
                100
            }
        },
{
    let same = same_byte(case_sensitive);
    let h = bytes(name);
    let n = bytes(term);
    let stem = stem_len(name);
    law_best_occurrence_counts(name, term, case_sensitive, 0);
    let p = fit(name, term, case_sensitive)->0;
    let k = choose|k: int| #[trigger]
        stands_with(same, h, n, k) && p == term_points(h, stem, k, n.len() as int);
    if k == 0 {
        assert(stands_with(same, h, n, 0));
    }
    if starts_word(h, k) && ends_word(h, k + n.len()) {
        assert(stands_with(same, h, n, k) && starts_word(h, k) && ends_word(h, k + n.len()));
    }
    if exists|i: int| #[trigger]
        stands_with(same, h, n, i) && starts_word(h, i) && ends_word(h, i + n.len()) {
        let i = choose|i: int| #[trigger]
            stands_with(same, h, n, i) && starts_word(h, i) && ends_word(h, i + n.len());
        law_best_occurrence_counts(name, term, case_sensitive, i);
    }
}

/// Of two names that a regular expression matches, the shorter ranks first, as
/// long as it has less than 1000 bytes.
pub proof fn law_shorter_name_ranks_first_in_regex(v: SpecView, a: Seq<char>, b: Seq<char>)
    requires
        v.mode == MatchMode::Regex,
        v.name_terms.len() > 0,
        name_points(v, a) is Some,
        name_points(v, b) is Some,
        bytes(a).len() < bytes(b).len() < 0x1_0000_0000,
        bytes(a).len() < 1000,
    ensures
        name_points(v, a)->0 > name_points(v, b)->0,
{
    vstd::arithmetic::div_mod::lemma_small_mod(bytes(a).len(), 0x1_0000_0000);
    vstd::arithmetic::div_mod::lemma_small_mod(bytes(b).len(), 0x1_0000_0000);
}

/// A search that asks for nothing shows the first live entries of the index, in
/// index order and without a gap.
pub proof fn law_asking_nothing_shows_the_index(
    o: SearchOutcome,
    index: IndexView,
    v: SpecView,
    max: nat,
    i: int,
)
    requires
        index.entries.len() <= NO_PARENT,
        v.name_terms.len() == 0,
        v.path_terms.len() == 0,
        v.exts.len() == 0,
        v.size_min is None,
        v.size_max is None,
        v.date_min is None,
        v.date_max is None,
        v.type_filter == TypeFilter::Any,
        v.content is None,
        is_outcome(o, index, all_matches(index, v, Category::All), max),
        0 <= i < index.entries.len(),
        !index.entries[i].deleted,
    ensures
        o.total == crate::index::live(index.entries),
        forall|j: int, k: int|
            0 <= j < k < o.hits@.len() ==> (#[trigger] o.hits@[j]).idx < (#[trigger] o.hits@[k]).idx,
        (exists|k: int| 0 <= k < o.hits@.len() && (#[trigger] o.hits@[k]).idx == i) || (
        o.hits@.len() == max && forall|k: int|
            0 <= k < o.hits@.len() ==> (#[trigger] o.hits@[k]).idx < i),
{
    let n = index.entries.len();
    let all = all_matches(index, v, Category::All);
    let top = choose|top: Seq<(u32, u32)>| #[trigger]
        is_top(top, all, max) && hit_views(o.hits@) == top.map_values(
            |m: (u32, u32)| hit_for(index, m),
        );
    assert(v =~= crate::query::blank(v.mode, v.case_sensitive));
    lemma_outcome_rows(o, index, all, max, top);
    lemma_live(index, n);
    assert(index.entries.take(n as int) =~= index.entries);
    lemma_every_live_entry(index, n, i);
    assert forall|k: int| 0 <= k < top.len() implies (#[trigger] top[k]).1 == 0 && (
    #[trigger] o.hits@[k]).idx == top[k].0 by {
        assert(all.contains(top[k]));
        assert(o.hits@[k]@ == hit_for(index, top[k]));
    }
    assert forall|j: int, k: int| 0 <= j < k < o.hits@.len() implies (#[trigger] o.hits@[j]).idx < (
    #[trigger] o.hits@[k]).idx by {
        assert(ranks_before(top[j], top[k]));
    }
    let m = (i as u32, 0u32);
    let at = choose|at: int| 0 <= at < all.len() && all[at] == m;
    if top.contains(m) {
        let k = choose|k: int| 0 <= k < top.len() && top[k] == m;
        assert(o.hits@[k].idx == i);
    } else {
        if all.len() <= max {
            law_all_matches_are_shown_when_they_fit(top, all, max, m);
        }
        assert forall|k: int| 0 <= k < o.hits@.len() implies (#[trigger] o.hits@[k]).idx < i by {
            assert(ranks_before(top[k], all[at]));
        }
    }
}

/// The points of several terms add up, and the boost for a short name counts once:
/// with one term more, a name is worth more by what it is worth for that term alone,
/// less the boost.
pub proof fn law_terms_add_up(
    name: Seq<char>,
    terms: Seq<Seq<char>>,
    term: Seq<char>,
    case_sensitive: bool,
)
    requires
        0 < terms.len() < 100_000,
        substring_points(name, terms.push(term), case_sensitive) is Some,
    ensures
        ({
            let all = substring_points(name, terms.push(term), case_sensitive)->0;
            let some = substring_points(name, terms, case_sensitive);
            let one = substring_points(name, seq![term], case_sensitive);
            let boost = if bytes(name).len() < 200 {
                200 - bytes(name).len()
            } else {
                0
            };
            &&& some is Some
            &&& one is Some
            &&& all + boost == some->0 + one->0
        }),
{
    let more = terms.push(term);
    assert(more.drop_last() =~= terms);
    lemma_points_bound(name, terms, case_sensitive);
    lemma_one_term(name, term, case_sensitive);
    lemma_best(
        same_byte(case_sensitive),
        bytes(name),
        stem_len(name),
        bytes(term),
        bytes(name).len() + 1,
    );
}

proof fn lemma_points_bound(name: Seq<char>, terms: Seq<Seq<char>>, case_sensitive: bool)
    ensures
        terms_points(name, terms, case_sensitive) matches Some(p) ==> p <= 5000 * terms.len(),
    decreases terms.len(),
{
    if terms.len() > 0 {
        lemma_points_bound(name, terms.drop_last(), case_sensitive);
        lemma_best(
            same_byte(case_sensitive),
            bytes(name),
            stem_len(name),
            bytes(terms.last()),
            bytes(name).len() + 1,
        );
    }
}

/// A search by filters alone, without words, shows what passes in index order.
pub proof fn law_filters_alone_keep_index_order(
    o: SearchOutcome,
    index: IndexView,
    v: SpecView,
    category: Category,
    max: nat,
    i: int,
    j: int,
)
    requires
        index.entries.len() <= NO_PARENT,
        v.name_terms.len() == 0,
        is_outcome(o, index, all_matches(index, v, category), max),
        0 <= i < j < o.hits@.len(),
    ensures
        o.hits@[i].idx < o.hits@[j].idx,
{
    let all = all_matches(index, v, category);
    let n = index.entries.len();
    let top = choose|top: Seq<(u32, u32)>| #[trigger]
        is_top(top, all, max) && hit_views(o.hits@) == top.map_values(
            |m: (u32, u32)| hit_for(index, m),
        );
    lemma_outcome_rows(o, index, all, max, top);
    assert(o.hits@[i]@ == hit_for(index, top[i]) && o.hits@[j]@ == hit_for(index, top[j]));
    assert(ranks_before(top[i], top[j]));
    assert(all.contains(top[i]) && all.contains(top[j]));
    lemma_live(index, n);
    lemma_found_live(index, v, category, n);
    if !(v.asks_nothing() && category == Category::All) {
        lemma_found(index, v, category, n, top[i].0 as int, top[i].1);
        lemma_found(index, v, category, n, top[j].0 as int, top[j].1);
    }
}

}
