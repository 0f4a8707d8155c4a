//! The search worker: what it makes of a request, before and after the files of
//! a content search are read.

use crate::content::{compiled_matcher, pattern_source, ContentQuery, MAX_GREP_FILES};
use crate::dates::is_start_of_day;
use crate::filters::{
    is_word, law_date_range_ends_with_its_last_day, law_type_filters_ask_for_a_kind, no_double_dot,
    says, says_date,
};
use crate::index::{Index, IndexView};
use crate::paths::respelled;
use crate::query::{
    blank, parse, quotes, reads_as, tokens, MatchMode, SearchSpec, SpecView, TypeFilter,
};
use crate::results::{ResponseView, SearchResponse};
use crate::search::{
    all_matches, bad_regex, compiled_regex, execute, hit_views, is_outcome, keeps_limits,
    law_hits_are_the_best_in_order, law_hits_are_what_was_asked_for,
    law_respelled_terms_fit_respelled_paths, path_fits, within_limits, Hit, HitView, SearchOutcome,
};
use crate::text::{lower_all, opt_text};
use crate::util::{bytes, contains_with, ends_in, same_byte, Category};
use std::sync::atomic::AtomicU64;
use vstd::prelude::*;

verus! {

/// A search to run.
pub struct SearchRequest {
    pub generation: u64,
    pub query: String,
    pub mode: MatchMode,
    pub case_sensitive: bool,
    pub category: Category,
    pub max_results: usize,
    /// Whether paths are typed with backslashes between their components.
    pub backslashes: bool,
}

#[verifier::ext_equal]
pub struct RequestView {
    pub generation: u64,
    pub query: Seq<char>,
    pub mode: MatchMode,
    pub case_sensitive: bool,
    pub category: Category,
    pub max_results: usize,
    /// Whether paths are typed with backslashes between their components.
    pub backslashes: bool,
}

impl View for SearchRequest {
    type V = RequestView;

    open spec fn view(&self) -> RequestView {
        RequestView {
            generation: self.generation,
            query: self.query@,
            mode: self.mode,
            case_sensitive: self.case_sensitive,
            category: self.category,
            max_results: self.max_results,
            backslashes: self.backslashes,
        }
    }
}

/// The request to run out of those that are pending: only the newest matters.
pub fn newest_request(pending: Vec<SearchRequest>) -> (r: Option<SearchRequest>)
    ensures
        r is Some <==> pending@.len() > 0,
        r matches Some(q) ==> q == pending@.last(),
{
    let mut list = pending;
    list.pop()
}

/// How many candidates are gathered. A content search takes a wide set, which
/// reading the files then narrows down.
pub open spec fn candidates(v: SpecView, max_results: usize) -> nat {
    if v.content is Some {
        MAX_GREP_FILES as nat
    } else {
        max_results as nat
    }
}

/// A search by name that has been run, and what is still to be looked for in the
/// files.
pub struct Begun {
    pub outcome: SearchOutcome,
    pub content: Option<String>,
}

/// A search as it is run on the paths of the index, which have slashes.
pub open spec fn on_paths(v: SpecView, backslashes: bool) -> SpecView {
    if backslashes {
        v.respelled()
    } else {
        v
    }
}

/// What is run of a query that has been read: the search, on the paths of the
/// index, and the number of candidates to gather.
pub fn to_run(read: SearchSpec, max_results: usize, backslashes: bool) -> (r: (SearchSpec, usize))
    ensures
        r.0@ == on_paths(read@, backslashes),
        r.1 == candidates(read@, max_results),
{
    let cap: usize = if read.content.is_some() {
        MAX_GREP_FILES
    } else {
        max_results
    };
    let mut spec = read;
    if backslashes {
        spec.respell_paths();
    }
    (spec, cap)
}

/// Whether something can be begun as a request asks whose query reads as `v`.
/// Beyond the limits of fuzzy matching nothing comes of it. A bad regular
/// expression, and a query that asks for nothing in no category, are answered at
/// once. What comes of any other query is the outcome of the search.
pub open spec fn begun(r: Option<Begun>, index: IndexView, req: RequestView, v: SpecView) -> bool {
    let run = on_paths(v, req.backslashes);
    &&& !within_limits(index, run) ==> r is None
    &&& within_limits(index, run) && (bad_regex(run) || (run.asks_nothing() && req.category
        == Category::All)) ==> r is Some
    &&& r matches Some(b) ==> opt_text(b.content) == v.content && is_outcome(
        b.outcome,
        index,
        all_matches(index, run, req.category),
        candidates(v, req.max_results),
    )
}

/// Runs the search by name that a request asks for. Nothing comes of it once a
/// newer search has taken over, or where it is beyond the limits of fuzzy
/// matching.
pub fn begin(index: &Index, req: &SearchRequest, current: &AtomicU64) -> (r: Option<Begun>)
    ensures
        exists|v: SpecView| #[trigger]
            reads_as(req@.query, req@.mode, req@.case_sensitive, v) && begun(r, index@, req@, v),
{
    let read = parse(req.query.as_str(), req.mode, req.case_sensitive);
    let ghost v = read@;
    assert(reads_as(req@.query, req@.mode, req@.case_sensitive, v));
    let (spec, cap) = to_run(read, req.max_results, req.backslashes);
    if !keeps_limits(index, &spec) {
        assert(begun(None, index@, req@, v));
        return None;
    }
    match execute(index, &spec, req.category, cap, req.generation, current) {
        Some(outcome) => {
            let content = spec.content;
            let b = Begun { outcome, content };
            assert(begun(Some(b), index@, req@, v));
            Some(b)
        },
        None => {
            assert(begun(None, index@, req@, v));
            None
        },
    }
}

/// A query without words or filters is answered in no category, within the limits
/// of fuzzy matching.
pub proof fn law_an_empty_query_is_answered(
    r: Option<Begun>,
    index: IndexView,
    req: RequestView,
    v: SpecView,
)
    requires
        tokens(req.query).len() == 0,
        req.category == Category::All,
        within_limits(index, blank(req.mode, req.case_sensitive)),
        reads_as(req.query, req.mode, req.case_sensitive, v),
        begun(r, index, req, v),
    ensures
        r is Some,
{
    let run = on_paths(v, req.backslashes);
    assert(run =~= blank(req.mode, req.case_sensitive));
}

/// Compiles what a request looks for inside files: a regular expression in that
/// mode, and the text itself in the others. Nothing comes of a bad pattern.
pub fn content_query(req: &SearchRequest, pattern: &str) -> (r: Option<ContentQuery>)
    ensures
        ({
            let source = pattern_source(pattern@, req@.mode == MatchMode::Regex);
            let ignore = !req@.case_sensitive;
            &&& r is Some <==> compiled_matcher(source, ignore) is Some && compiled_regex(
                source,
                ignore,
            ) is Some
            &&& r matches Some(q) ==> compiled_matcher(source, ignore) == Some(q.file_matcher())
                && compiled_regex(source, ignore) == Some(q.line_regex())
        }),
{
    ContentQuery::compile(pattern, req.mode == MatchMode::Regex, req.case_sensitive)
}

/// The answer to a request: the outcome as it is, or the hits that a content
/// search kept, as many as are asked for.
pub open spec fn answered(
    req: RequestView,
    o: SearchOutcome,
    kept: Option<Seq<HitView>>,
    elapsed_ms: u64,
) -> ResponseView {
    match kept {
        None => ResponseView {
            generation: req.generation,
            hits: hit_views(o.hits@),
            total: o.total,
            truncated: o.truncated,
            elapsed_ms,
        },
        Some(hits) => ResponseView {
            generation: req.generation,
            hits: if hits.len() > req.max_results {
                hits.take(req.max_results as int)
            } else {
                hits
            },
            total: hits.len() as usize,
            truncated: hits.len() > req.max_results,
            elapsed_ms,
        },
    }
}

/// The answer to a request. `kept` holds the hits that a content search kept, if
/// there was one.
pub fn answer(
    req: &SearchRequest,
    outcome: SearchOutcome,
    kept: Option<Vec<Hit>>,
    elapsed_ms: u64,
) -> (r: SearchResponse)
    ensures
        r@ == answered(
            req@,
            outcome,
            match kept {
                Some(hits) => Some(hit_views(hits@)),
                None => None,
            },
            elapsed_ms,
        ),
{
    match kept {
        None => SearchResponse {
            generation: req.generation,
            hits: outcome.hits,
            total: outcome.total,
            truncated: outcome.truncated,
            elapsed_ms,
        },
        Some(hits) => {
            let total: usize = hits.len();
            let truncated = total > req.max_results;
            let mut shown = hits;
            let ghost all = hit_views(shown@);
            if truncated {
                shown.truncate(req.max_results);
                assert(hit_views(shown@) =~= all.take(req.max_results as int));
            }
            SearchResponse {
                generation: req.generation,
                hits: shown,
                total,
                truncated,
                elapsed_ms,
            }
        },
    }
}

/// An answer never holds more hits than were asked for, as long as the search by
/// name did not, and it says when hits are missing.
pub proof fn law_answers_keep_the_limit(
    req: RequestView,
    o: SearchOutcome,
    kept: Option<Seq<HitView>>,
    elapsed_ms: u64,
)
    requires
        kept matches Some(hits) ==> hits.len() <= usize::MAX,
        kept is None ==> o.hits@.len() <= req.max_results && (o.truncated <==> o.total
            > o.hits@.len()),
    ensures
        answered(req, o, kept, elapsed_ms).hits.len() <= req.max_results,
        answered(req, o, kept, elapsed_ms).truncated <==> answered(req, o, kept, elapsed_ms).total
            > answered(req, o, kept, elapsed_ms).hits.len(),
{
}

/// A content search gathers the best 50000 matches by name, every other search as
/// many as it may show.
pub proof fn law_content_searches_gather_more(
    b: Begun,
    index: IndexView,
    req: RequestView,
    v: SpecView,
)
    requires
        index.entries.len() <= 0xffff_ffff,
        begun(Some(b), index, req, v),
    ensures
        opt_text(b.content) == v.content,
        v.content is Some ==> b.outcome.hits@.len() == (if b.outcome.total <= 50_000 {
            b.outcome.total as int
        } else {
            50_000
        }),
        v.content is None ==> b.outcome.hits@.len() == (if b.outcome.total <= req.max_results {
            b.outcome.total
        } else {
            req.max_results
        }),
{
    let run = on_paths(v, req.backslashes);
    law_hits_are_the_best_in_order(
        b.outcome,
        index,
        run,
        req.category,
        candidates(v, req.max_results),
    );
}

/// Whatever a request finds is what its query asks for: a live entry of the index
/// of the kind, size, time and extension that the query names, with its path terms
/// in the path, spelled with backslashes where paths are typed that way.
pub proof fn law_requests_find_what_their_query_asks_for(
    b: Begun,
    index: IndexView,
    req: RequestView,
    v: SpecView,
    i: int,
)
    requires
        index.entries.len() <= 0xffff_ffff,
        begun(Some(b), index, req, v),
        0 <= i < b.outcome.hits@.len(),
    ensures
        ({
            let h = b.outcome.hits@[i];
            &&& h.idx < index.entries.len() && !index.entries[h.idx as int].deleted
            &&& v.type_filter == TypeFilter::File ==> !h.is_dir
            &&& v.type_filter == TypeFilter::Folder ==> h.is_dir
            &&& req.category == Category::Folders ==> h.is_dir
            &&& req.category == Category::Files ==> !h.is_dir
            &&& v.size_min matches Some(least) ==> least <= h.size
            &&& v.size_max matches Some(most) ==> h.size <= most
            &&& v.date_min matches Some(from) ==> from <= h.modified
            &&& v.date_max matches Some(to) ==> h.modified < to
            &&& v.exts.len() > 0 ==> exists|k: int|
                0 <= k < v.exts.len() && ends_in(h.name@, #[trigger] v.exts[k])
            &&& forall|k: int|
                0 <= k < v.path_terms.len() ==> contains_with(
                    same_byte(v.case_sensitive),
                    bytes(
                        if req.backslashes {
                            respelled(h.path@)
                        } else {
                            h.path@
                        },
                    ),
                    bytes(#[trigger] v.path_terms[k]),
                )
            &&& v.mode == MatchMode::Substring ==> forall|k: int|
                0 <= k < v.name_terms.len() ==> contains_with(
                    same_byte(v.case_sensitive),
                    bytes(h.name@),
                    bytes(#[trigger] v.name_terms[k]),
                )
        }),
{
    let run = on_paths(v, req.backslashes);
    let max = candidates(v, req.max_results);
    law_hits_are_what_was_asked_for(b.outcome, index, run, req.category, max, i);
    let h = b.outcome.hits@[i];
    if req.backslashes {
        law_respelled_terms_fit_respelled_paths(v, h.path@);
        assert(path_fits(run, h.path@));
        assert(path_fits(v, respelled(h.path@)));
    }
}

/// What a content search kept is answered in order: the first hits, as many as
/// were asked for, and the number of all of them.
pub proof fn law_kept_hits_are_answered_in_order(
    req: RequestView,
    o: SearchOutcome,
    kept: Seq<HitView>,
    elapsed_ms: u64,
    i: int,
)
    requires
        kept.len() <= usize::MAX,
    ensures
        ({
            let r = answered(req, o, Some(kept), elapsed_ms);
            &&& r.generation == req.generation
            &&& r.elapsed_ms == elapsed_ms
            &&& r.total == kept.len()
            &&& kept.len() <= req.max_results ==> r.hits == kept && !r.truncated
            &&& kept.len() > req.max_results ==> r.hits.len() == req.max_results && r.truncated
            &&& 0 <= i < r.hits.len() ==> r.hits[i] == kept[i]
        }),
        ({
            let r = answered(req, o, None, elapsed_ms);
            &&& r.generation == req.generation
            &&& r.elapsed_ms == elapsed_ms
            &&& r.total == o.total
            &&& r.truncated == o.truncated
            &&& r.hits.len() == o.hits@.len()
            &&& 0 <= i < o.hits@.len() ==> r.hits[i] == o.hits@[i]@
        }),
{
}

/// Who types `type:file` finds no folder, and who types `type:folder` finds nothing
/// else, whatever stands before it in the query.
pub proof fn law_typed_kinds_are_what_is_found(
    b: Begun,
    index: IndexView,
    req: RequestView,
    v: SpecView,
    before: Seq<char>,
    word: Seq<char>,
    i: int,
)
    requires
        index.entries.len() <= 0xffff_ffff,
        quotes(before) % 2 == 0,
        is_word(word),
        req.query == before.push(' ') + word,
        reads_as(req.query, req.mode, req.case_sensitive, v),
        begun(Some(b), index, req, v),
        0 <= i < b.outcome.hits@.len(),
    ensures
        says(word, "type:"@, "file"@) ==> !b.outcome.hits@[i].is_dir,
        says(word, "type:"@, "folder"@) ==> b.outcome.hits@[i].is_dir,
{
    law_requests_find_what_their_query_asks_for(b, index, req, v, i);
    reveal_strlit("file");
    reveal_strlit("folder");
    assert(lower_all("file"@) =~= "file"@);
    assert(lower_all("folder"@) =~= "folder"@);
    assert("file"@.len() == 4 && "folder"@.len() == 6);
    reveal_strlit("files");
    reveal_strlit("f");
    assert("files"@.len() == 5 && "f"@.len() == 1);
    if says(word, "type:"@, "file"@) {
        law_type_filters_ask_for_a_kind(
            before,
            word,
            "file"@,
            req.mode,
            req.case_sensitive,
            v,
        );
    }
    if says(word, "type:"@, "folder"@) {
        law_type_filters_ask_for_a_kind(
            before,
            word,
            "folder"@,
            req.mode,
            req.case_sensitive,
            v,
        );
    }
}

/// Who types a range of days finds nothing that changed before the first begins, or
/// when 86400 seconds have gone by since the last began.
pub proof fn law_typed_days_are_what_is_found(
    b: Begun,
    index: IndexView,
    req: RequestView,
    v: SpecView,
    before: Seq<char>,
    word: Seq<char>,
    lo: Seq<char>,
    hi: Seq<char>,
    i: int,
)
    requires
        index.entries.len() <= 0xffff_ffff,
        quotes(before) % 2 == 0,
        is_word(word),
        no_double_dot(lo),
        lo.len() == 0 || lo.last() != '.',
        says_date(word, lo + seq!['.', '.'] + hi),
        req.query == before.push(' ') + word,
        reads_as(req.query, req.mode, req.case_sensitive, v),
        begun(Some(b), index, req, v),
        0 <= i < b.outcome.hits@.len(),
    ensures
        exists|first: Option<i64>, second: Option<i64>|
            {
                &&& #[trigger] is_start_of_day(lo, first)
                &&& #[trigger] is_start_of_day(hi, second)
                &&& first matches Some(start) ==> b.outcome.hits@[i].modified >= start
                &&& second matches Some(start) ==> b.outcome.hits@[i].modified < start + 86_400
            },
{
    law_requests_find_what_their_query_asks_for(b, index, req, v, i);
    law_date_range_ends_with_its_last_day(
        before,
        word,
        lo,
        hi,
        req.mode,
        req.case_sensitive,
        v,
        0,
    );
    let (w, first, second) = choose|w: SpecView, first: Option<i64>, second: Option<i64>|
        {
            &&& #[trigger] reads_as(before, req.mode, req.case_sensitive, w)
            &&& #[trigger] is_start_of_day(lo, first)
            &&& #[trigger] is_start_of_day(hi, second)
            &&& v == (SpecView { date_min: v.date_min, date_max: v.date_max, ..w })
            &&& v.date_min == first
            &&& second is None <==> v.date_max is None
            &&& second matches Some(start) ==> v.date_max->0 == start + 86_400
        };
    assert(is_start_of_day(lo, first) && is_start_of_day(hi, second));
}

}
