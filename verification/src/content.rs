//! Content search: looks inside candidate files, with binary detection and size
//! caps so that it stays fast.

use crate::doctext::{
    document_format, document_text, extract_text, is_document, lines_of, text_lines, DocFormat,
    DOCUMENT_FORMATS,
};
use crate::search::{
    compile_regex, compiled_regex, escape_literal, escaped, hit_views, is_meta, is_stale,
    regex_is_match, regex_matches, unless_stale, Hit, HitView,
};
use crate::text::{
    char_views, from_chars, occurs, opt_text, texts, to_chars, trim, trim_end, trimmed, trimmed_end,
};
use crate::util::{ends_in, law_extension_is_the_end, lower_extension};
use grep_searcher::sinks::UTF8;
use rayon::prelude::{IntoParallelIterator, ParallelIterator};
use std::sync::atomic::{AtomicU64, Ordering};
use vstd::prelude::*;
use vstd::slice::slice_subrange;

verus! {

/// Max file size that is looked into.
pub const MAX_GREP_SIZE: u64 = 16_777_216;

/// Max number of candidate files that are looked into per search.
pub const MAX_GREP_FILES: usize = 50_000;

/// Most characters of a line that are shown.
pub const MAX_LINE: usize = 300;

/// A compiled matcher of the `grep_regex` crate.
#[verifier::external_type_specification]
#[verifier::external_body]
pub struct ExRegexMatcher(grep_regex::RegexMatcher);

/// What `grep_regex::RegexMatcherBuilder` makes of a pattern: nothing where the
/// pattern is not a regular expression.
pub uninterp spec fn compiled_matcher(
    pattern: Seq<char>,
    ignore_case: bool,
) -> Option<grep_regex::RegexMatcher>;

/// The first line, with its number, that `grep_searcher` finds in a file; nothing
/// where no line matches, where the file is binary up to there, or where the
/// line is not UTF-8.
pub uninterp spec fn first_match(
    matcher: grep_regex::RegexMatcher,
    file: Seq<u8>,
) -> Option<(u64, Seq<char>)>;

/// Compiles a pattern with `grep_regex::RegexMatcherBuilder`. What comes out
/// depends on the pattern and the case flag alone.
#[verifier::external_body]
fn compile_matcher(pattern: &str, ignore_case: bool) -> (r: Option<grep_regex::RegexMatcher>)
    ensures
        r == compiled_matcher(pattern@, ignore_case),
{
    grep_regex::RegexMatcherBuilder::new().case_insensitive(ignore_case).build(pattern).ok()
}

/// Searches a file line by line with `grep_searcher::Searcher::search_reader`,
/// stopping at the first match and at the first zero byte. Lines are counted from
/// 1. A line that an escaped literal matches, with case counting, contains the
/// literal.
#[verifier::external_body]
fn grep_first(matcher: &grep_regex::RegexMatcher, file: &[u8]) -> (r: Option<(u64, String)>)
    ensures
        (match r {
            Some((n, line)) => first_match(*matcher, file@) == Some((n, line@)),
            None => first_match(*matcher, file@) is None,
        }),
        r matches Some((n, line)) ==> n >= 1 && forall|literal: Seq<char>|
            #[trigger] compiled_matcher(escaped(literal), false) == Some(*matcher) ==> occurs(
                line@,
                literal,
            ),
{
    let mut found = None;
    let sink = UTF8(|number, line| {
        found = Some((number, line.to_string()));
        Ok(false)
    });
    let binary = grep_searcher::BinaryDetection::quit(b'\x00');
    let mut builder = grep_searcher::SearcherBuilder::new();
    let mut searcher = builder.binary_detection(binary).line_number(true).build();
    searcher.search_reader(matcher, file, sink).ok()?;
    found
}

/// What was read of a candidate file.
pub struct FileData {
    /// The file, if it could be read.
    pub bytes: Option<Vec<u8>>,
    /// Of a PDF, its text, if it could be extracted.
    pub pdf_text: Option<String>,
}

#[verifier::ext_equal]
pub struct FileView {
    pub bytes: Option<Seq<u8>>,
    pub pdf_text: Option<Seq<char>>,
}

impl View for FileData {
    type V = FileView;

    open spec fn view(&self) -> FileView {
        FileView {
            bytes: match self.bytes {
                Some(b) => Some(b@),
                None => None,
            },
            pdf_text: opt_text(self.pdf_text),
        }
    }
}

/// What has to be read of a candidate file before it can be searched.
#[derive(Clone, Copy, Debug, PartialEq, Eq, Structural)]
pub enum Access {
    /// Nothing: it is a folder or too large.
    Skip,
    /// The text of a PDF.
    PdfText,
    /// The bytes.
    Bytes,
}

/// Whether a name is that of a document.
pub open spec fn names_document(name: Seq<char>) -> bool {
    lower_extension(name) matches Some(e) && texts(DOCUMENT_FORMATS@).contains(e)
}

pub open spec fn access_of(h: HitView) -> Access {
    if h.dir || h.size > MAX_GREP_SIZE {
        Access::Skip
    } else if names_document(h.name) && DocFormat::of_path(h.path) == Some(DocFormat::Pdf) {
        Access::PdfText
    } else {
        Access::Bytes
    }
}

/// What has to be read of a candidate file.
pub fn access(hit: &Hit) -> (r: Access)
    ensures
        r == access_of(hit@),
{
    if hit.is_dir || hit.size > MAX_GREP_SIZE {
        Access::Skip
    } else if is_document(hit.name.as_str()) {
        match document_format(hit.path.as_str()) {
            Some(DocFormat::Pdf) => Access::PdfText,
            _ => Access::Bytes,
        }
    } else {
        Access::Bytes
    }
}

/// The pattern that is compiled: as typed, or escaped where it is a literal.
pub open spec fn pattern_source(pattern: Seq<char>, as_regex: bool) -> Seq<char> {
    if as_regex {
        pattern
    } else {
        escaped(pattern)
    }
}

/// The first characters of a text, as many as are shown.
pub open spec fn shown(s: Seq<char>) -> Seq<char> {
    if s.len() <= MAX_LINE {
        s
    } else {
        s.take(MAX_LINE as int)
    }
}

/// The first line that an expression matches, with its number counted from 1.
pub open spec fn first_line(re: regex::Regex, lines: Seq<Seq<char>>, at: nat) -> Option<
    (u64, Seq<char>),
>
    decreases lines.len() - at,
{
    if at >= lines.len() {
        None
    } else if regex_matches(re, lines[at as int]) {
        Some(((at + 1) as u64, shown(trim(lines[at as int]))))
    } else {
        first_line(re, lines, at + 1)
    }
}

/// A compiled content search.
pub struct ContentQuery {
    matcher: grep_regex::RegexMatcher,
    lines: regex::Regex,
}

impl ContentQuery {
    /// Whether the query was compiled from this source.
    pub closed spec fn made_from(self, source: Seq<char>, ignore_case: bool) -> bool {
        compiled_matcher(source, ignore_case) == Some(self.matcher) && compiled_regex(
            source,
            ignore_case,
        ) == Some(self.lines)
    }

    pub closed spec fn file_matcher(self) -> grep_regex::RegexMatcher {
        self.matcher
    }

    pub closed spec fn line_regex(self) -> regex::Regex {
        self.lines
    }

    /// Compiles a content search; nothing comes of a bad pattern.
    pub fn compile(pattern: &str, as_regex: bool, case_sensitive: bool) -> (r: Option<ContentQuery>)
        ensures
            ({
                let source = pattern_source(pattern@, as_regex);
                &&& r is Some <==> compiled_matcher(source, !case_sensitive) is Some
                    && compiled_regex(source, !case_sensitive) is Some
                &&& r matches Some(q) ==> q.made_from(source, !case_sensitive)
                    && compiled_matcher(source, !case_sensitive) == Some(q.file_matcher())
                    && compiled_regex(source, !case_sensitive) == Some(q.line_regex())
            }),
    {
        let source = if as_regex {
            pattern.to_owned()
        } else {
            escape_literal(pattern)
        };
        let matcher = match compile_matcher(source.as_str(), !case_sensitive) {
            Some(m) => m,
            None => return None,
        };
        let lines = match compile_regex(source.as_str(), !case_sensitive) {
            Some(re) => re,
            None => return None,
        };
        Some(ContentQuery { matcher, lines })
    }
}

/// The first matching line of a candidate file. Documents are searched in their
/// extracted text, everything else in the raw file.
pub open spec fn line_in(
    matcher: grep_regex::RegexMatcher,
    lines: regex::Regex,
    h: HitView,
    f: FileView,
) -> Option<(u64, Seq<char>)> {
    if h.dir || h.size > MAX_GREP_SIZE {
        None
    } else if names_document(h.name) {
        let text = if DocFormat::of_path(h.path) == Some(DocFormat::Pdf) {
            f.pdf_text
        } else {
            match f.bytes {
                Some(b) => document_text(h.path, b, None),
                None => None,
            }
        };
        match text {
            Some(t) => first_line(lines, lines_of(t), 0),
            None => None,
        }
    } else {
        match f.bytes {
            Some(b) => match first_match(matcher, b) {
                Some((n, line)) => Some((n, shown(trim_end(line)))),
                None => None,
            },
            None => None,
        }
    }
}

/// The first characters of a text, as a string.
fn show(s: &[char]) -> (r: String)
    ensures
        r@ == shown(s@),
{
    if s.len() <= MAX_LINE {
        from_chars(s)
    } else {
        let head = slice_subrange(s, 0, MAX_LINE);
        assert(head@ =~= s@.take(MAX_LINE as int));
        from_chars(head)
    }
}

/// Whether none of the first `n` lines contains a text.
pub open spec fn none_holds(lines: Seq<Seq<char>>, literal: Seq<char>, n: int) -> bool {
    forall|k: int| 0 <= k < n ==> !occurs(#[trigger] lines[k], literal)
}

/// Whether line `n` is the first that contains a text.
pub open spec fn first_holds(lines: Seq<Seq<char>>, literal: Seq<char>, n: int) -> bool {
    occurs(lines[n], literal) && none_holds(lines, literal, n)
}

/// The first line of a text that an expression matches. Of a literal for which
/// case counts, it is the first line that contains it.
pub fn search_text(q: &ContentQuery, text: &str) -> (r: Option<(u64, String)>)
    ensures
        (match r {
            Some((n, line)) => first_line(q.line_regex(), lines_of(text@), 0) == Some((n, line@)),
            None => first_line(q.line_regex(), lines_of(text@), 0) is None,
        }),
        r matches Some((n, _)) ==> 1 <= n <= lines_of(text@).len(),
        forall|literal: Seq<char>|
            #[trigger] compiled_regex(escaped(literal), false) == Some(q.line_regex()) ==> (match r {
                Some((n, _)) => 0 < n <= lines_of(text@).len() && first_holds(
                    lines_of(text@),
                    literal,
                    n - 1,
                ),
                None => none_holds(lines_of(text@), literal, lines_of(text@).len() as int),
            }),
{
    let chars = to_chars(text);
    let lines = text_lines(chars.as_slice());
    let ghost all = char_views(lines@);
    for i in 0..lines.len()
        invariant
            all == char_views(lines@),
            all == lines_of(text@),
            first_line(q.line_regex(), all, 0) == first_line(q.line_regex(), all, i as nat),
            forall|literal: Seq<char>|
                #[trigger] compiled_regex(escaped(literal), false) == Some(q.line_regex())
                    ==> none_holds(all, literal, i as int),
    {
        assert(all[i as int] == lines@[i as int]@);
        let line = from_chars(lines[i].as_slice());
        if regex_is_match(&q.lines, line.as_str()) {
            return Some((i as u64 + 1, show(trimmed(lines[i].as_slice()))));
        }
    }
    None
}

/// Whether a file has a line that contains a text, as far as the searcher says.
pub open spec fn has_line_with(
    matcher: grep_regex::RegexMatcher,
    file: Seq<u8>,
    literal: Seq<char>,
) -> bool {
    first_match(matcher, file) matches Some((_, line)) && occurs(line, literal)
}

/// The first matching line of a candidate file, counted from 1. Where a raw file
/// was searched for a literal for which case counts, the line contains it.
pub fn search_file(q: &ContentQuery, hit: &Hit, file: &FileData) -> (r: Option<(u64, String)>)
    ensures
        (match r {
            Some((n, line)) => line_in(q.file_matcher(), q.line_regex(), hit@, file@) == Some(
                (n, line@),
            ),
            None => line_in(q.file_matcher(), q.line_regex(), hit@, file@) is None,
        }),
        r matches Some((n, _)) ==> n >= 1,
        r is Some && !names_document(hit@.name) ==> forall|literal: Seq<char>|
            #[trigger] compiled_matcher(escaped(literal), false) == Some(q.file_matcher())
                ==> has_line_with(q.file_matcher(), file@.bytes->0, literal),
{
    if hit.is_dir || hit.size > MAX_GREP_SIZE {
        return None;
    }
    if is_document(hit.name.as_str()) {
        let path = hit.path.as_str();
        let text = match document_format(path) {
            Some(DocFormat::Pdf) => match &file.pdf_text {
                Some(t) => Some(t.clone()),
                None => None,
            },
            _ => match &file.bytes {
                Some(b) => extract_text(path, b.as_slice(), None),
                None => None,
            },
        };
        return match text {
            Some(t) => search_text(q, t.as_str()),
            None => None,
        };
    }
    match &file.bytes {
        Some(b) => match grep_first(&q.matcher, b.as_slice()) {
            Some((n, line)) => {
                let chars = to_chars(line.as_str());
                Some((n, show(trimmed_end(chars.as_slice()))))
            },
            None => None,
        },
        None => None,
    }
}

/// Searches candidate files in parallel. `rayon` calls `search_file` once for
/// each of them, and `collect` keeps the results in order.
#[verifier::external_body]
fn search_files(q: &ContentQuery, files: &[(Hit, FileData)]) -> (r: Vec<Option<(u64, String)>>)
    ensures
        r@.len() == files@.len(),
        forall|i: int|
            0 <= i < r@.len() ==> (match #[trigger] r@[i] {
                Some((n, line)) => line_in(
                    q.file_matcher(),
                    q.line_regex(),
                    files@[i].0@,
                    files@[i].1@,
                ) == Some((n, line@)),
                None => line_in(
                    q.file_matcher(),
                    q.line_regex(),
                    files@[i].0@,
                    files@[i].1@,
                ) is None,
            }),
{
    files.into_par_iter().map(|f| search_file(q, &f.0, &f.1)).collect()
}

/// The candidates that match, in order, each with its first matching line.
pub open spec fn matching(
    matcher: grep_regex::RegexMatcher,
    lines: regex::Regex,
    files: Seq<(HitView, FileView)>,
) -> Seq<HitView>
    decreases files.len(),
{
    if files.len() == 0 {
        Seq::empty()
    } else {
        let before = matching(matcher, lines, files.drop_last());
        let (h, f) = files.last();
        match line_in(matcher, lines, h, f) {
            Some(line) => before.push(HitView { content_line: Some(line), ..h }),
            None => before,
        }
    }
}

pub open spec fn file_views(files: Seq<(Hit, FileData)>) -> Seq<(HitView, FileView)> {
    files.map_values(|x: (Hit, FileData)| (x.0@, x.1@))
}

/// Whether a newer search has taken over. Other threads move the counter, so
/// nothing is known here of what it reads.
fn superseded(generation: u64, current: &AtomicU64) -> bool {
    is_stale(generation, current.load(Ordering::Relaxed))
}

/// The candidates whose content the query matches; each gains its first matching
/// line.
pub fn matching_hits(q: &ContentQuery, files: Vec<(Hit, FileData)>) -> (out: Vec<Hit>)
    ensures
        hit_views(out@) == matching(q.file_matcher(), q.line_regex(), file_views(files@)),
{
    let found = search_files(q, files.as_slice());
    attach_lines(q, files, found)
}

/// Keeps the candidates whose content the query matches; each gains its first
/// matching line. Nothing is returned once a newer search has taken over.
pub fn keep_matching(
    q: &ContentQuery,
    files: Vec<(Hit, FileData)>,
    generation: u64,
    current: &AtomicU64,
) -> (r: Option<Vec<Hit>>)
    ensures
        r matches Some(out) ==> hit_views(out@) == matching(
            q.file_matcher(),
            q.line_regex(),
            file_views(files@),
        ),
{
    if superseded(generation, current) {
        return None;
    }
    let out = matching_hits(q, files);
    unless_stale(out, superseded(generation, current))
}

/// Puts the lines that were found into the hits and drops the others.
fn attach_lines(
    q: &ContentQuery,
    files: Vec<(Hit, FileData)>,
    found: Vec<Option<(u64, String)>>,
) -> (out: Vec<Hit>)
    requires
        found@.len() == files@.len(),
        forall|i: int|
            0 <= i < found@.len() ==> (match #[trigger] found@[i] {
                Some((n, line)) => line_in(
                    q.file_matcher(),
                    q.line_regex(),
                    files@[i].0@,
                    files@[i].1@,
                ) == Some((n, line@)),
                None => line_in(
                    q.file_matcher(),
                    q.line_regex(),
                    files@[i].0@,
                    files@[i].1@,
                ) is None,
            }),
    ensures
        hit_views(out@) == matching(q.file_matcher(), q.line_regex(), file_views(files@)),
{
    let mut out: Vec<Hit> = Vec::new();
    let ghost all = file_views(files@);
    let ghost start = files@;
    let mut i: usize = 0;
    let total: usize = files.len();
    for x in it: files
        invariant
            it.seq() == start,
            total == start.len(),
            all == file_views(start),
            i == it.index(),
            found@.len() == start.len(),
            forall|i: int|
                0 <= i < found@.len() ==> (match #[trigger] found@[i] {
                    Some((n, line)) => line_in(
                        q.file_matcher(),
                        q.line_regex(),
                        start[i].0@,
                        start[i].1@,
                    ) == Some((n, line@)),
                    None => line_in(
                        q.file_matcher(),
                        q.line_regex(),
                        start[i].0@,
                        start[i].1@,
                    ) is None,
                }),
            hit_views(out@) == matching(q.file_matcher(), q.line_regex(), all.take(i as int)),
    {
        assert(all.take(i + 1).drop_last() =~= all.take(i as int));
        assert(all.take(i + 1).last() == (start[i as int].0@, start[i as int].1@));
        let ghost seen = found@[i as int];
        if let Some((n, line)) = &found[i] {
            let (mut hit, _) = x;
            hit.content_line = Some((*n, line.clone()));
            let ghost before = out@;
            let ghost hv = hit@;
            out.push(hit);
            assert(hit_views(out@) =~= hit_views(before).push(hv));
            assert(hv == HitView { content_line: Some((*n, line@)), ..start[i as int].0@ });
        }
        i = i + 1;
    }
    assert(all.take(all.len() as int) =~= all);
    out
}

/// Filters candidates down to those whose content matches `pattern` (treated as
/// a literal unless `as_regex`). Each surviving hit gains its first matching
/// line. Nothing is returned for a bad pattern, or once a newer search has taken
/// over.
pub fn filter_by_content(
    files: Vec<(Hit, FileData)>,
    pattern: &str,
    as_regex: bool,
    case_sensitive: bool,
    generation: u64,
    current: &AtomicU64,
) -> (r: Option<Vec<Hit>>)
    ensures
        ({
            let source = pattern_source(pattern@, as_regex);
            let matcher = compiled_matcher(source, !case_sensitive);
            let lines = compiled_regex(source, !case_sensitive);
            &&& matcher is None || lines is None ==> r is None
            &&& r matches Some(out) ==> hit_views(out@) == matching(
                matcher->0,
                lines->0,
                file_views(files@),
            )
        }),
{
    match ContentQuery::compile(pattern, as_regex, case_sensitive) {
        Some(q) => keep_matching(&q, files, generation, current),
        None => None,
    }
}

// ---------------------------------------------------------------------------
// Laws
// ---------------------------------------------------------------------------

/// Whether a hit is a candidate that was kept, with its first matching line.
pub open spec fn is_kept(
    matcher: grep_regex::RegexMatcher,
    lines: regex::Regex,
    file: (HitView, FileView),
    h: HitView,
) -> bool {
    &&& line_in(matcher, lines, file.0, file.1) is Some
    &&& h == HitView { content_line: line_in(matcher, lines, file.0, file.1), ..file.0 }
}

/// Content search only narrows down: every hit that it keeps is a candidate with
/// its first matching line, and is neither a folder nor too large.
pub proof fn law_content_search_narrows_down(
    matcher: grep_regex::RegexMatcher,
    lines: regex::Regex,
    files: Seq<(HitView, FileView)>,
    i: int,
)
    requires
        0 <= i < matching(matcher, lines, files).len(),
    ensures
        matching(matcher, lines, files).len() <= files.len(),
        exists|j: int|
            0 <= j < files.len() && is_kept(
                matcher,
                lines,
                #[trigger] files[j],
                matching(matcher, lines, files)[i],
            ),
        !matching(matcher, lines, files)[i].dir,
        matching(matcher, lines, files)[i].size <= MAX_GREP_SIZE,
    decreases files.len(),
{
    let front = files.drop_last();
    let before = matching(matcher, lines, front);
    let h = matching(matcher, lines, files)[i];
    if i < before.len() {
        law_content_search_narrows_down(matcher, lines, front, i);
        let j = choose|j: int|
            0 <= j < front.len() && is_kept(matcher, lines, #[trigger] front[j], before[i]);
        assert(files[j] == front[j]);
    } else {
        assert(is_kept(matcher, lines, files[files.len() - 1], h));
        if before.len() > 0 {
            law_content_search_narrows_down(matcher, lines, front, 0);
        }
    }
}

/// Each candidate is judged by itself, and the order of the candidates is kept:
/// searching two lists one after the other gives what searching both gives.
pub proof fn law_candidates_are_judged_one_by_one(
    matcher: grep_regex::RegexMatcher,
    lines: regex::Regex,
    a: Seq<(HitView, FileView)>,
    b: Seq<(HitView, FileView)>,
)
    ensures
        matching(matcher, lines, a + b) == matching(matcher, lines, a) + matching(
            matcher,
            lines,
            b,
        ),
    decreases b.len(),
{
    if b.len() > 0 {
        law_candidates_are_judged_one_by_one(matcher, lines, a, b.drop_last());
        assert((a + b).drop_last() =~= a + b.drop_last());
        assert((a + b).last() == b.last());
    } else {
        assert(a + b =~= a);
    }
}

/// The line that is shown of a document is a line of its text, and none before
/// it matches.
pub proof fn law_first_matching_line(re: regex::Regex, lines: Seq<Seq<char>>, at: nat)
    requires
        lines.len() <= u64::MAX,
    ensures
        (match first_line(re, lines, at) {
            Some((n, line)) => at < n <= lines.len() && regex_matches(re, lines[n - 1]) && line
                == shown(trim(lines[n - 1])) && forall|k: int|
                at <= k < n - 1 ==> !regex_matches(re, #[trigger] lines[k]),
            None => forall|k: int| at <= k < lines.len() ==> !regex_matches(re, #[trigger] lines[k]),
        }),
    decreases lines.len() - at,
{
    if at < lines.len() && !regex_matches(re, lines[at as int]) {
        law_first_matching_line(re, lines, at + 1);
    }
}

/// Whether a name ends in one of the extensions of documents.
pub open spec fn ends_like_a_document(name: Seq<char>) -> bool {
    ends_in(name, "pdf"@) || ends_in(name, "docx"@) || ends_in(name, "xlsx"@) || ends_in(
        name,
        "pptx"@,
    ) || ends_in(name, "odt"@) || ends_in(name, "ods"@) || ends_in(name, "odp"@)
}

/// A raw file of at most 16 megabytes is searched whole: a candidate that is no
/// folder and no document, and could be read, is kept exactly when a line of it
/// matches, with the number of the first such line, and up to 300 characters of it
/// without white space at its end.
pub proof fn law_raw_files_are_searched(
    matcher: grep_regex::RegexMatcher,
    lines: regex::Regex,
    h: HitView,
    f: FileView,
)
    requires
        !h.dir,
        h.size <= 16 * 1024 * 1024,
        !ends_like_a_document(h.name),
        f.bytes is Some,
    ensures
        access_of(h) == Access::Bytes,
        first_match(matcher, f.bytes->0) is None ==> matching(matcher, lines, seq![(h, f)]).len()
            == 0,
        first_match(matcher, f.bytes->0) matches Some((n, line)) ==> {
            let out = matching(matcher, lines, seq![(h, f)]);
            &&& out.len() == 1
            &&& out[0] == (HitView { content_line: out[0].content_line, ..h })
            &&& out[0].content_line matches Some((m, text)) && m == n && {
                &&& trim_end(line).len() <= 300 ==> text == trim_end(line)
                &&& trim_end(line).len() > 300 ==> text == trim_end(line).take(300)
            }
        },
        line_in(matcher, lines, h, f) is Some <==> first_match(matcher, f.bytes->0) is Some,
{
    lemma_document_names(h.name);
    lemma_matching_one(matcher, lines, h, f);
}

/// A document of at most 16 megabytes is searched in its text: it is kept exactly
/// when a line of the text matches, with the number of the first such line, and up
/// to 300 characters of it without white space around it.
pub proof fn law_documents_are_searched_in_their_text(
    matcher: grep_regex::RegexMatcher,
    lines: regex::Regex,
    h: HitView,
    f: FileView,
    text: Seq<char>,
)
    requires
        !h.dir,
        h.size <= 16 * 1024 * 1024,
        ends_like_a_document(h.name),
        lines_of(text).len() <= u64::MAX,
        DocFormat::of_path(h.path) == Some(DocFormat::Pdf) ==> f.pdf_text == Some(text),
        DocFormat::of_path(h.path) != Some(DocFormat::Pdf) ==> f.bytes is Some && document_text(
            h.path,
            f.bytes->0,
            None,
        ) == Some(text),
    ensures
        access_of(h) == (if DocFormat::of_path(h.path) == Some(DocFormat::Pdf) {
            Access::PdfText
        } else {
            Access::Bytes
        }),
        (exists|k: int|
            0 <= k < lines_of(text).len() && regex_matches(lines, #[trigger] lines_of(text)[k]))
            <==> matching(matcher, lines, seq![(h, f)]).len() == 1,
        line_in(matcher, lines, h, f) matches Some((n, line)) ==> {
            let out = matching(matcher, lines, seq![(h, f)]);
            &&& out.len() == 1
            &&& out[0] == (HitView { content_line: Some((n, line)), ..h })
            &&& 1 <= n <= lines_of(text).len()
            &&& regex_matches(lines, lines_of(text)[n - 1])
            &&& forall|k: int|
                0 <= k < n - 1 ==> !regex_matches(lines, #[trigger] lines_of(text)[k])
            &&& trim(lines_of(text)[n - 1]).len() <= 300 ==> line == trim(lines_of(text)[n - 1])
            &&& trim(lines_of(text)[n - 1]).len() > 300 ==> line == trim(
                lines_of(text)[n - 1],
            ).take(300)
        },
{
    lemma_document_names(h.name);
    lemma_matching_one(matcher, lines, h, f);
    law_first_matching_line(lines, lines_of(text), 0);
}

/// Folders, files of more than 16 megabytes, and what could not be read are passed
/// over.
pub proof fn law_unreadable_files_are_passed_over(
    matcher: grep_regex::RegexMatcher,
    lines: regex::Regex,
    h: HitView,
    f: FileView,
)
    requires
        h.dir || h.size > 16 * 1024 * 1024 || (f.bytes is None && f.pdf_text is None),
    ensures
        matching(matcher, lines, seq![(h, f)]).len() == 0,
        h.dir || h.size > 16 * 1024 * 1024 ==> access_of(h) == Access::Skip,
{
    lemma_matching_one(matcher, lines, h, f);
}

proof fn lemma_matching_one(
    matcher: grep_regex::RegexMatcher,
    lines: regex::Regex,
    h: HitView,
    f: FileView,
)
    ensures
        matching(matcher, lines, seq![(h, f)]) == (match line_in(matcher, lines, h, f) {
            Some(line) => seq![HitView { content_line: Some(line), ..h }],
            None => Seq::<HitView>::empty(),
        }),
{
    let one = seq![(h, f)];
    assert(one.drop_last() =~= Seq::<(HitView, FileView)>::empty());
    reveal_with_fuel(matching, 2);
    if let Some(line) = line_in(matcher, lines, h, f) {
        assert(matching(matcher, lines, one) =~= seq![
            HitView { content_line: Some(line), ..h },
        ]);
    }
}

proof fn lemma_document_names(name: Seq<char>)
    ensures
        names_document(name) <==> ends_like_a_document(name),
{
    let all = texts(DOCUMENT_FORMATS@);
    assert(all.len() == 7);
    assert(all[0] == "pdf"@ && all[1] == "docx"@ && all[2] == "pptx"@ && all[3] == "xlsx"@ && all[4]
        == "odt"@ && all[5] == "odp"@ && all[6] == "ods"@);
    reveal_strlit("pdf");
    reveal_strlit("docx");
    reveal_strlit("xlsx");
    reveal_strlit("pptx");
    reveal_strlit("odt");
    reveal_strlit("ods");
    reveal_strlit("odp");
    assert forall|i: int| 0 <= i < 7 implies !(#[trigger] all[i]).contains('.') by {}
    assert forall|i: int| 0 <= i < 7 implies (lower_extension(name) == Some(#[trigger] all[i]))
        == ends_in(name, all[i]) by {
        law_extension_is_the_end(name, all[i]);
    }
    assert(ends_in(name, all[0]) || ends_in(name, all[1]) || ends_in(name, all[2]) || ends_in(
        name,
        all[3],
    ) || ends_in(name, all[4]) || ends_in(name, all[5]) || ends_in(name, all[6])
        <==> names_document(name));
}

/// A pattern that is taken as a regular expression is compiled as it is typed. One
/// that is taken as text has a backslash put before each character that would mean
/// something else, and is compiled as it is typed where there is none.
pub proof fn law_patterns_are_compiled_as_typed(pattern: Seq<char>)
    ensures
        pattern_source(pattern, true) == pattern,
        pattern_source(pattern, false) == escaped(pattern),
        (forall|i: int| 0 <= i < pattern.len() ==> !is_meta(#[trigger] pattern[i]))
            ==> pattern_source(pattern, false) == pattern,
    decreases pattern.len(),
{
    if pattern.len() > 0 {
        let front = pattern.drop_last();
        law_patterns_are_compiled_as_typed(front);
        assert(front.push(pattern.last()) =~= pattern);
        assert(pattern[pattern.len() - 1] == pattern.last());
        if forall|i: int| 0 <= i < pattern.len() ==> !is_meta(#[trigger] pattern[i]) {
            assert forall|i: int| 0 <= i < front.len() implies !is_meta(#[trigger] front[i]) by {
                assert(front[i] == pattern[i]);
            }
        }
    } else {
        assert(escaped(pattern) =~= pattern);
    }
}

}
