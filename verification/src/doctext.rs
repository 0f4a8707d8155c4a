//! Text extraction from document formats (PDF, DOCX, PPTX, XLSX, and
//! OpenDocument files), so that searches can look inside them.

use crate::paths::{file_name, file_name_of, lemma_join_cons, lemma_split_join};
use crate::order::{
    comes_before, law_order_leaves_nothing_out, law_stable_order, stable_order, stable_positions,
};
use crate::text::{
    append_chars, char_views, from_chars, is_digit, is_space, join, lower_all, lower_text,
    occurs_at, opt_text, replace_all, replaced, same_text, split, split_on, stands_at, texts,
    to_chars, trim, trim_end, trim_start, trimmed, views,
};
use crate::numbers::{
    decimal, law_decimals_read_back, law_whole_numbers_are_read, parse_whole, whole_number,
};
use crate::util::{has_extension, last_of, lower_extension};
use std::io::Read;
use vstd::prelude::*;
use vstd::slice::slice_subrange;
use vstd::string::*;

verus! {

/// Extensions that text can be extracted from (beyond plain text files).
pub const DOCUMENT_FORMATS: [&'static str; 7] = [
    "pdf", "docx", "pptx", "xlsx", "odt", "odp", "ods",
];

/// Whether text can be extracted from a file of this name.
pub fn is_document(name: &str) -> (r: bool)
    ensures
        r == (lower_extension(name@) matches Some(e) && texts(DOCUMENT_FORMATS@).contains(e)),
{
    has_extension(name, &DOCUMENT_FORMATS)
}

// ---------------------------------------------------------------------------
// Lines
// ---------------------------------------------------------------------------

/// A line without the carriage return that may stand before the line feed.
pub open spec fn without_return(s: Seq<char>) -> Seq<char> {
    if s.len() > 0 && s.last() == '\r' {
        s.drop_last()
    } else {
        s
    }
}

/// The lines of a text: pieces between line feeds, each without the carriage
/// return before its line feed. Nothing after the last line feed is no line.
pub open spec fn lines_of(s: Seq<char>) -> Seq<Seq<char>> {
    let pieces = split_on(s, '\n');
    let ended = pieces.drop_last().map_values(|p: Seq<char>| without_return(p));
    if pieces.last().len() > 0 {
        ended.push(pieces.last())
    } else {
        ended
    }
}

/// The lines of a text.
pub fn text_lines(s: &[char]) -> (r: Vec<Vec<char>>)
    ensures
        char_views(r@) == lines_of(s@),
{
    let mut pieces = split(s, '\n');
    proof {
        crate::text::lemma_split_nonempty(s@, '\n');
    }
    let ghost all = char_views(pieces@);
    let last = match pieces.pop() {
        Some(p) => p,
        None => Vec::new(),
    };
    assert(last@ == all.last());
    let ghost front = pieces@;
    assert(char_views(front) =~= all.drop_last());
    let ghost shape = |p: Seq<char>| without_return(p);
    let mut r: Vec<Vec<char>> = Vec::new();
    for p in it: pieces
        invariant
            it.seq() == front,
            shape == (|p: Seq<char>| without_return(p)),
            char_views(r@) == char_views(front).take(it.index() as int).map_values(shape),
    {
        let ghost n = it.index() as int;
        let mut line = p;
        if line.len() > 0 && line[line.len() - 1] == '\r' {
            line.pop();
        }
        assert(line@ =~= without_return(front[n]@));
        let ghost before = r@;
        r.push(line);
        assert(char_views(r@) =~= char_views(before).push(line@));
        assert(char_views(front).take(n + 1).map_values(shape) =~= char_views(front).take(
            n,
        ).map_values(shape).push(line@));
    }
    assert(char_views(front).take(front.len() as int) =~= char_views(front));
    if last.len() > 0 {
        let ghost before = r@;
        r.push(last);
        assert(char_views(r@) =~= char_views(before).push(last@));
    }
    r
}

// ---------------------------------------------------------------------------
// Markup
// ---------------------------------------------------------------------------

/// What stands outside of tags.
pub open spec fn outside_tags(s: Seq<char>) -> (Seq<char>, bool)
    decreases s.len(),
{
    if s.len() == 0 {
        (Seq::empty(), false)
    } else {
        let (text, in_tag) = outside_tags(s.drop_last());
        if s.last() == '<' {
            (text, true)
        } else if s.last() == '>' {
            (text, false)
        } else if in_tag {
            (text, true)
        } else {
            (text.push(s.last()), false)
        }
    }
}

/// The text with the common entities decoded, the ampersand last: what it gives
/// is not decoded once more.
pub open spec fn decoded(s: Seq<char>) -> Seq<char> {
    let a = replace_all(s, "&lt;"@, "<"@);
    let b = replace_all(a, "&gt;"@, ">"@);
    let c = replace_all(b, "&quot;"@, "\""@);
    let d = replace_all(c, "&apos;"@, "'"@);
    replace_all(d, "&amp;"@, "&"@)
}

/// The lines that hold more than white space, without the white space around
/// them, each ended by a line feed.
pub open spec fn trimmed_lines(list: Seq<Seq<char>>) -> Seq<char>
    decreases list.len(),
{
    if list.len() == 0 {
        Seq::empty()
    } else {
        let before = trimmed_lines(list.drop_last());
        let line = trim(list.last());
        if line.len() > 0 {
            before + line.push('\n')
        } else {
            before
        }
    }
}

/// The text of a piece of XML: each closing tag of a paragraph is a line break,
/// all other tags are dropped, entities are decoded, and empty lines are left
/// out.
pub open spec fn stripped(xml: Seq<char>, para_tag: Seq<char>) -> Seq<char> {
    trimmed_lines(lines_of(decoded(outside_tags(replace_all(xml, para_tag, seq!['\n'])).0)))
}

fn drop_tags(s: &[char]) -> (r: Vec<char>)
    ensures
        r@ == outside_tags(s@).0,
{
    let mut text: Vec<char> = Vec::new();
    let mut in_tag = false;
    for i in 0..s.len()
        invariant
            outside_tags(s@.take(i as int)) == (text@, in_tag),
    {
        let c = s[i];
        assert(s@.take(i + 1).drop_last() =~= s@.take(i as int));
        assert(s@.take(i + 1).last() == c);
        if c == '<' {
            in_tag = true;
        } else if c == '>' {
            in_tag = false;
        } else if !in_tag {
            text.push(c);
        }
    }
    assert(s@.take(s@.len() as int) =~= s@);
    text
}

/// Replaces one text by another.
fn replace_text(s: &[char], from: &str, to: &str) -> (r: Vec<char>)
    requires
        from@.len() > 0,
    ensures
        r@ == replace_all(s@, from@, to@),
{
    let f = to_chars(from);
    let t = to_chars(to);
    replaced(s, f.as_slice(), t.as_slice())
}

fn decode_entities(s: &[char]) -> (r: Vec<char>)
    ensures
        r@ == decoded(s@),
{
    proof {
        reveal_strlit("&amp;");
        reveal_strlit("&lt;");
        reveal_strlit("&gt;");
        reveal_strlit("&quot;");
        reveal_strlit("&apos;");
    }
    let a = replace_text(s, "&lt;", "<");
    let b = replace_text(a.as_slice(), "&gt;", ">");
    let c = replace_text(b.as_slice(), "&quot;", "\"");
    let d = replace_text(c.as_slice(), "&apos;", "'");
    replace_text(d.as_slice(), "&amp;", "&")
}

/// Removes tags from XML, turning each paragraph-closing tag into a newline
/// and decoding the common entities.
pub fn strip_xml_into(xml: &[char], para_tag: &[char], out: &mut Vec<char>)
    requires
        para_tag@.len() > 0,
    ensures
        final(out)@ == old(out)@ + stripped(xml@, para_tag@),
{
    let mut newline: Vec<char> = Vec::new();
    newline.push('\n');
    assert(newline@ =~= seq!['\n']);
    let with_breaks = replaced(xml, para_tag, newline.as_slice());
    let text = drop_tags(with_breaks.as_slice());
    let plain = decode_entities(text.as_slice());
    let lines = text_lines(plain.as_slice());
    let ghost all = char_views(lines@);
    let ghost start = out@;
    assert(start + trimmed_lines(all.take(0)) =~= start);
    for i in 0..lines.len()
        invariant
            all == char_views(lines@),
            out@ == start + trimmed_lines(all.take(i as int)),
    {
        assert(all.take(i + 1).drop_last() =~= all.take(i as int));
        assert(all.take(i + 1).last() == lines@[i as int]@);
        let line = trimmed(lines[i].as_slice());
        if line.len() > 0 {
            let ghost before = out@;
            append_chars(out, line);
            out.push('\n');
            assert(out@ =~= start + (trimmed_lines(all.take(i as int)) + line@.push('\n')));
        }
    }
    assert(all.take(all.len() as int) =~= all);
}

/// How a document writes a character of its text.
pub open spec fn entity(c: char) -> Seq<char> {
    if c == '<' {
        "&lt;"@
    } else if c == '>' {
        "&gt;"@
    } else if c == '"' {
        "&quot;"@
    } else if c == '\'' {
        "&apos;"@
    } else if c == '&' {
        "&amp;"@
    } else {
        seq![c]
    }
}

/// How a document writes a text.
pub open spec fn encoded(s: Seq<char>) -> Seq<char>
    decreases s.len(),
{
    if s.len() == 0 {
        Seq::empty()
    } else {
        entity(s[0]) + encoded(s.drop_first())
    }
}

/// The step at which the entity of a character is decoded.
spec fn step_of(c: char) -> int {
    if c == '<' {
        0
    } else if c == '>' {
        1
    } else if c == '"' {
        2
    } else if c == '\'' {
        3
    } else {
        4
    }
}

/// A text of which the entities of the first `k` steps are decoded.
spec fn decoded_upto(s: Seq<char>, k: int) -> Seq<char>
    decreases s.len(),
{
    if s.len() == 0 {
        Seq::empty()
    } else {
        (if step_of(s[0]) < k {
            seq![s[0]]
        } else {
            entity(s[0])
        }) + decoded_upto(s.drop_first(), k)
    }
}

/// A piece in which nothing that is to be replaced begins stays as it is.
proof fn lemma_replace_passes(piece: Seq<char>, rest: Seq<char>, from: Seq<char>, to: Seq<char>)
    requires
        from.len() > 0,
        forall|i: int|
            0 <= i < piece.len() ==> (#[trigger] piece[i]) != from[0] || (from.len() > 2 && i + 2
                < piece.len() && (piece[i + 1] != from[1] || piece[i + 2] != from[2])),
    ensures
        replace_all(piece + rest, from, to) == piece + replace_all(rest, from, to),
    decreases piece.len(),
{
    let all = piece + rest;
    if piece.len() == 0 {
        assert(all =~= rest);
        assert(piece + replace_all(rest, from, to) =~= replace_all(rest, from, to));
    } else {
        let tail = piece.drop_first();
        assert forall|i: int| 0 <= i < tail.len() implies (#[trigger] tail[i]) != from[0] || (
        from.len() > 2 && i + 2 < tail.len() && (tail[i + 1] != from[1] || tail[i + 2]
            != from[2])) by {
            assert(tail[i] == piece[i + 1]);
        }
        lemma_replace_passes(tail, rest, from, to);
        assert(all.drop_first() =~= tail + rest);
        assert(all[0] == piece[0]);
        if from.is_prefix_of(all) {
            let head = all.subrange(0, from.len() as int);
            assert(head[0] == piece[0]);
            if from.len() > 2 {
                assert(head[1] == all[1] && head[2] == all[2]);
            }
        }
        assert(piece + replace_all(rest, from, to) =~= seq![piece[0]] + (tail + replace_all(
            rest,
            from,
            to,
        )));
        if all.len() < from.len() {
            assert(replace_all(rest, from, to) == rest);
        }
    }
}

/// One step decodes one entity.
proof fn lemma_decoding_step(s: Seq<char>, c: char)
    requires
        entity(c) != seq![c],
    ensures
        replace_all(decoded_upto(s, step_of(c)), entity(c), seq![c]) == decoded_upto(
            s,
            step_of(c) + 1,
        ),
    decreases s.len(),
{
    reveal_strlit("&lt;");
    reveal_strlit("&gt;");
    reveal_strlit("&quot;");
    reveal_strlit("&apos;");
    reveal_strlit("&amp;");
    let k = step_of(c);
    let from = entity(c);
    if s.len() > 0 {
        let rest = decoded_upto(s.drop_first(), k);
        lemma_decoding_step(s.drop_first(), c);
        if s[0] == c {
            let all = from + rest;
            assert(all.subrange(0, from.len() as int) =~= from);
            assert(from.is_prefix_of(all));
            assert(all.skip(from.len() as int) =~= rest);
        } else {
            let piece = if step_of(s[0]) < k {
                seq![s[0]]
            } else {
                entity(s[0])
            };
            lemma_replace_passes(piece, rest, from, seq![c]);
        }
    }
}

proof fn lemma_decoded_ends(s: Seq<char>)
    ensures
        decoded_upto(s, 0) == encoded(s),
        decoded_upto(s, 5) == s,
    decreases s.len(),
{
    if s.len() > 0 {
        lemma_decoded_ends(s.drop_first());
        assert(seq![s[0]] + s.drop_first() =~= s);
    } else {
        assert(decoded_upto(s, 5) =~= s);
    }
}

/// Decoding gives back the text that a document writes, ampersands and all.
pub proof fn law_decoding_gives_back_the_text(s: Seq<char>)
    ensures
        decoded(encoded(s)) == s,
{
    reveal_strlit("&lt;");
    reveal_strlit("&gt;");
    reveal_strlit("&quot;");
    reveal_strlit("&apos;");
    reveal_strlit("&amp;");
    reveal_strlit("<");
    reveal_strlit(">");
    reveal_strlit("\"");
    reveal_strlit("'");
    reveal_strlit("&");
    assert("<"@ =~= seq!['<']);
    assert(">"@ =~= seq!['>']);
    assert("\""@ =~= seq!['"']);
    assert("'"@ =~= seq!['\'']);
    assert("&"@ =~= seq!['&']);
    lemma_decoded_ends(s);
    lemma_decoding_step(s, '<');
    lemma_decoding_step(s, '>');
    lemma_decoding_step(s, '"');
    lemma_decoding_step(s, '\'');
    lemma_decoding_step(s, '&');
}

/// Text without angle brackets holds no tags: all of it is kept.
pub proof fn law_plain_text_is_kept(s: Seq<char>)
    requires
        !s.contains('<'),
        !s.contains('>'),
    ensures
        outside_tags(s) == (s, false),
    decreases s.len(),
{
    if s.len() > 0 {
        let f = s.drop_last();
        assert(s[s.len() - 1] == s.last());
        assert(!f.contains('<')) by {
            if f.contains('<') {
                let i = choose|i: int| 0 <= i < f.len() && f[i] == '<';
                assert(s[i] == '<');
            }
        }
        assert(!f.contains('>')) by {
            if f.contains('>') {
                let i = choose|i: int| 0 <= i < f.len() && f[i] == '>';
                assert(s[i] == '>');
            }
        }
        law_plain_text_is_kept(f);
        assert(f.push(s.last()) =~= s);
    } else {
        assert(outside_tags(s).0 =~= s);
    }
}

// ---------------------------------------------------------------------------
// Members of a container
// ---------------------------------------------------------------------------

/// The names of the members of a zip archive, in the order of its directory;
/// nothing where the bytes are no archive. What `zip::ZipArchive` reads.
pub uninterp spec fn zip_names(archive: Seq<u8>) -> Option<Seq<Seq<char>>>;

/// The text of a member of a zip archive; nothing where there is no such member
/// or where it is not text. What `zip::ZipArchive` reads.
pub uninterp spec fn zip_text(archive: Seq<u8>, name: Seq<char>) -> Option<Seq<char>>;

/// Lists the members of an archive with `zip::ZipArchive::file_names`.
#[verifier::external_body]
fn member_names(archive: &[u8]) -> (r: Option<Vec<String>>)
    ensures
        (match r {
            Some(list) => zip_names(archive@) == Some(views(list@)),
            None => zip_names(archive@) is None,
        }),
{
    let archive = zip::ZipArchive::new(std::io::Cursor::new(archive)).ok()?;
    Some(archive.file_names().map(String::from).collect())
}

/// Reads a member of an archive with `zip::ZipArchive::by_name`.
#[verifier::external_body]
fn member_text(archive: &[u8], name: &str) -> (r: Option<String>)
    ensures
        opt_text(r) == zip_text(archive@, name@),
{
    let mut archive = zip::ZipArchive::new(std::io::Cursor::new(archive)).ok()?;
    let mut text = String::new();
    archive.by_name(name).ok()?.read_to_string(&mut text).ok()?;
    Some(text)
}

/// From the first digit on.
pub open spec fn from_digit(s: Seq<char>) -> Seq<char>
    decreases s.len(),
{
    if s.len() > 0 && !is_digit(s[0]) {
        from_digit(s.drop_first())
    } else {
        s
    }
}

/// Without every occurrence of `suffix` at the end.
pub open spec fn without_suffix(s: Seq<char>, suffix: Seq<char>) -> Seq<char>
    decreases s.len(),
{
    if suffix.len() > 0 && occurs_at(s, suffix, s.len() - suffix.len()) {
        without_suffix(s.take(s.len() - suffix.len()), suffix)
    } else {
        s
    }
}

/// The number of a slide, taken from the name of its member; the largest number
/// where there is none.
pub open spec fn slide_number(name: Seq<char>) -> u32 {
    match whole_number(without_suffix(from_digit(name), ".xml"@), u32::MAX as nat) {
        Some(n) => n as u32,
        None => u32::MAX,
    }
}

/// Whether a member is a slide.
pub open spec fn is_slide(name: Seq<char>) -> bool {
    occurs_at(name, "ppt/slides/slide"@, 0) && occurs_at(name, ".xml"@, name.len() - ".xml"@.len())
}

/// The slides among the members.
pub open spec fn slides_among(names: Seq<Seq<char>>) -> Seq<Seq<char>>
    decreases names.len(),
{
    if names.len() == 0 {
        Seq::empty()
    } else if is_slide(names.last()) {
        slides_among(names.drop_last()).push(names.last())
    } else {
        slides_among(names.drop_last())
    }
}

/// The slides in the order of their numbers; without numbers they come last, and
/// equal ones stay in order.
pub open spec fn slides_in_order(names: Seq<Seq<char>>) -> Seq<Seq<char>> {
    let slides = slides_among(names);
    let keys = slides.map_values(|s: Seq<char>| slide_number(s));
    stable_order(keys, keys.len()).map_values(|p: usize| slides[p as int])
}

/// The text of the named members, one after the other, each ended by a line
/// feed; members that cannot be read are passed over.
pub open spec fn members_text(
    archive: Seq<u8>,
    names: Seq<Seq<char>>,
    para_tag: Seq<char>,
) -> Seq<char>
    decreases names.len(),
{
    if names.len() == 0 {
        Seq::empty()
    } else {
        let before = members_text(archive, names.drop_last(), para_tag);
        match zip_text(archive, names.last()) {
            Some(xml) => before + stripped(xml, para_tag).push('\n'),
            None => before,
        }
    }
}

/// A text without the white space around it; nothing where nothing is left.
pub open spec fn some_text(s: Seq<char>) -> Option<Seq<char>> {
    if trim(s).len() > 0 {
        Some(trim(s))
    } else {
        None
    }
}

/// The extension of the last component of a path. A leading dot makes none; a
/// trailing one makes an empty one.
pub open spec fn path_extension(path: Seq<char>) -> Option<Seq<char>> {
    match file_name_of(path) {
        Some(name) => {
            let dot = last_of(name, '.');
            if dot <= 0 {
                None
            } else {
                Some(name.skip(dot + 1))
            }
        },
        None => None,
    }
}

/// How the text of a document is found.
#[derive(Clone, Copy, Debug, PartialEq, Eq, Structural)]
pub enum DocFormat {
    Pdf,
    Docx,
    Pptx,
    Xlsx,
    OpenDocument,
}

impl DocFormat {
    /// The format that an extension in lower case stands for.
    pub open spec fn of_extension(ext: Seq<char>) -> Option<DocFormat> {
        if ext == "pdf"@ {
            Some(DocFormat::Pdf)
        } else if ext == "docx"@ {
            Some(DocFormat::Docx)
        } else if ext == "pptx"@ {
            Some(DocFormat::Pptx)
        } else if ext == "xlsx"@ {
            Some(DocFormat::Xlsx)
        } else if ext == "odt"@ || ext == "odp"@ || ext == "ods"@ {
            Some(DocFormat::OpenDocument)
        } else {
            None
        }
    }

    /// The format of a file.
    pub open spec fn of_path(path: Seq<char>) -> Option<DocFormat> {
        match path_extension(path) {
            Some(e) => DocFormat::of_extension(lower_all(e)),
            None => None,
        }
    }

    /// The tag that ends a paragraph.
    pub open spec fn para_tag(self) -> Seq<char> {
        match self {
            DocFormat::Docx => "</w:p>"@,
            DocFormat::Pptx => "</a:p>"@,
            DocFormat::Xlsx => "</si>"@,
            _ => "</text:p>"@,
        }
    }

    /// The members that hold the text.
    pub open spec fn members(self, archive: Seq<u8>) -> Seq<Seq<char>> {
        match self {
            DocFormat::Docx => seq!["word/document.xml"@],
            DocFormat::Xlsx => seq!["xl/sharedStrings.xml"@],
            DocFormat::Pptx => match zip_names(archive) {
                Some(names) => slides_in_order(names),
                None => Seq::empty(),
            },
            _ => seq!["content.xml"@],
        }
    }
}

/// The text of a document with the given bytes; of a PDF it is what was read
/// from it by other means.
pub open spec fn document_text(
    path: Seq<char>,
    archive: Seq<u8>,
    pdf_text: Option<Seq<char>>,
) -> Option<Seq<char>> {
    match DocFormat::of_path(path) {
        None => None,
        Some(DocFormat::Pdf) => pdf_text,
        Some(f) => some_text(members_text(archive, f.members(archive), f.para_tag())),
    }
}

fn number_of_slide(name: &str) -> (r: u32)
    ensures
        r == slide_number(name@),
{
    let chars = to_chars(name);
    let s = chars.as_slice();
    let len: usize = s.len();
    let mut i: usize = 0;
    assert(s@.skip(0) =~= s@);
    while i < len && !('0' <= s[i] && s[i] <= '9')
        invariant
            i <= len,
            len == s@.len(),
            from_digit(s@.skip(i as int)) == from_digit(s@),
        decreases len - i,
    {
        assert(s@.skip(i as int).drop_first() =~= s@.skip(i + 1));
        i = i + 1;
    }
    let rest = slice_subrange(s, i, len);
    assert(rest@ =~= s@.skip(i as int));
    let suffix = to_chars(".xml");
    proof {
        reveal_strlit(".xml");
    }
    let mut n: usize = rest.len();
    assert(rest@.take(n as int) =~= rest@);
    while n >= 4 && stands_at(slice_subrange(rest, 0, n), suffix.as_slice(), n - 4)
        invariant
            n <= rest@.len(),
            suffix@ == ".xml"@,
            suffix@.len() == 4,
            without_suffix(rest@.take(n as int), ".xml"@) == without_suffix(rest@, ".xml"@),
        decreases n,
    {
        assert(rest@.subrange(0, n as int) =~= rest@.take(n as int));
        assert(rest@.take(n as int).take(n - 4) =~= rest@.take(n - 4));
        n = n - 4;
    }
    let core = slice_subrange(rest, 0, n);
    assert(core@ =~= rest@.take(n as int));
    match parse_whole(core, u32::MAX) {
        Some(k) => k,
        None => u32::MAX,
    }
}

fn name_is_slide(name: &str) -> (r: bool)
    ensures
        r == is_slide(name@),
{
    let s = to_chars(name);
    let prefix = to_chars("ppt/slides/slide");
    let suffix = to_chars(".xml");
    stands_at(s.as_slice(), prefix.as_slice(), 0) && s.len() >= suffix.len() && stands_at(
        s.as_slice(),
        suffix.as_slice(),
        s.len() - suffix.len(),
    )
}

/// The slides in the order of their numbers.
fn ordered_slides(names: &[String]) -> (r: Vec<String>)
    ensures
        views(r@) == slides_in_order(views(names@)),
{
    let ghost all = views(names@);
    let mut slides: Vec<String> = Vec::new();
    let mut keys: Vec<u32> = Vec::new();
    let ghost number = |s: Seq<char>| slide_number(s);
    for i in 0..names.len()
        invariant
            all == views(names@),
            number == (|s: Seq<char>| slide_number(s)),
            views(slides@) == slides_among(all.take(i as int)),
            keys@ == views(slides@).map_values(number),
    {
        assert(all.take(i + 1).drop_last() =~= all.take(i as int));
        assert(all.take(i + 1).last() == names@[i as int]@);
        if name_is_slide(names[i].as_str()) {
            let ghost before = slides@;
            let name = names[i].clone();
            keys.push(number_of_slide(name.as_str()));
            slides.push(name);
            assert(views(slides@) =~= views(before).push(name@));
            assert(keys@ =~= views(slides@).map_values(number));
        }
    }
    assert(all.take(all.len() as int) =~= all);
    let order = stable_positions(keys.as_slice());
    let ghost list = views(slides@);
    let ghost pick = |p: usize| list[p as int];
    let mut r: Vec<String> = Vec::new();
    for i in 0..order.len()
        invariant
            list == views(slides@),
            pick == (|p: usize| list[p as int]),
            keys@.len() == slides@.len(),
            forall|i: int| 0 <= i < order@.len() ==> (#[trigger] order@[i]) < keys@.len(),
            views(r@) == order@.take(i as int).map_values(pick),
    {
        let ghost before = r@;
        let name = slides[order[i]].clone();
        r.push(name);
        assert(views(r@) =~= views(before).push(name@));
        assert(order@.take(i + 1).map_values(pick) =~= order@.take(i as int).map_values(pick).push(
            name@,
        ));
    }
    assert(order@.take(order@.len() as int) =~= order@);
    r
}

/// A list of one text.
fn only(name: &str) -> (r: Vec<String>)
    ensures
        views(r@) == seq![name@],
{
    let mut r: Vec<String> = Vec::new();
    r.push(name.to_owned());
    assert(views(r@) =~= seq![name@]);
    r
}

/// Pulls the selected XML members out of a zip container and strips markup.
fn extract_zip_xml(archive: &[u8], names: &[String], para_tag: &str) -> (r: Option<String>)
    requires
        para_tag@.len() > 0,
    ensures
        opt_text(r) == some_text(members_text(archive@, views(names@), para_tag@)),
{
    let tag = to_chars(para_tag);
    let mut out: Vec<char> = Vec::new();
    let ghost all = views(names@);
    for i in 0..names.len()
        invariant
            all == views(names@),
            tag@ == para_tag@,
            para_tag@.len() > 0,
            out@ == members_text(archive@, all.take(i as int), para_tag@),
    {
        assert(all.take(i + 1).drop_last() =~= all.take(i as int));
        assert(all.take(i + 1).last() == names@[i as int]@);
        if let Some(xml) = member_text(archive, names[i].as_str()) {
            let ghost before = out@;
            let chars = to_chars(xml.as_str());
            strip_xml_into(chars.as_slice(), tag.as_slice(), &mut out);
            out.push('\n');
            assert(out@ =~= before + stripped(xml@, para_tag@).push('\n'));
        }
    }
    assert(all.take(all.len() as int) =~= all);
    let text = trimmed(out.as_slice());
    if text.len() == 0 {
        None
    } else {
        Some(from_chars(text))
    }
}

/// The extension of the last component of a path.
pub fn extension_of_path(path: &str) -> (r: Option<String>)
    ensures
        opt_text(r) == path_extension(path@),
{
    let name = match file_name(path) {
        Some(name) => name,
        None => return None,
    };
    let chars = to_chars(name.as_str());
    let len: usize = chars.len();
    let mut dot: usize = len;
    let ghost all = chars@;
    // From the right, up to the last dot.
    assert(all.take(len as int) =~= all);
    while dot > 0 && chars[dot - 1] != '.'
        invariant
            dot <= len,
            len == chars@.len(),
            all == chars@,
            last_of(all, '.') == last_of(all.take(dot as int), '.'),
        decreases dot,
    {
        assert(all.take(dot as int).drop_last() =~= all.take(dot - 1));
        dot = dot - 1;
    }
    assert(dot > 0 ==> all.take(dot as int).last() == '.');
    if dot <= 1 {
        return None;
    }
    let ext = slice_subrange(chars.as_slice(), dot, len);
    assert(ext@ =~= all.skip(last_of(all, '.') + 1));
    Some(from_chars(ext))
}

/// The format of a file, judged by its extension.
pub fn document_format(path: &str) -> (r: Option<DocFormat>)
    ensures
        r == DocFormat::of_path(path@),
{
    let ext = match extension_of_path(path) {
        Some(e) => lower_text(e.as_str()),
        None => return None,
    };
    let e = ext.as_str();
    if same_text(e, "pdf") {
        Some(DocFormat::Pdf)
    } else if same_text(e, "docx") {
        Some(DocFormat::Docx)
    } else if same_text(e, "pptx") {
        Some(DocFormat::Pptx)
    } else if same_text(e, "xlsx") {
        Some(DocFormat::Xlsx)
    } else if same_text(e, "odt") || same_text(e, "odp") || same_text(e, "ods") {
        Some(DocFormat::OpenDocument)
    } else {
        None
    }
}

/// Extracts readable text from a document. `content` is the file; of a PDF,
/// `pdf_text` is what was read from it. Nothing comes of unsupported or
/// unreadable files.
pub fn extract_text(path: &str, content: &[u8], pdf_text: Option<String>) -> (r: Option<String>)
    ensures
        opt_text(r) == document_text(path@, content@, opt_text(pdf_text)),
{
    proof {
        reveal_strlit("</w:p>");
        reveal_strlit("</a:p>");
        reveal_strlit("</si>");
        reveal_strlit("</text:p>");
    }
    match document_format(path) {
        None => None,
        Some(DocFormat::Pdf) => pdf_text,
        Some(DocFormat::Docx) => extract_zip_xml(
            content,
            only("word/document.xml").as_slice(),
            "</w:p>",
        ),
        Some(DocFormat::Pptx) => match member_names(content) {
            Some(names) => {
                let slides = ordered_slides(names.as_slice());
                extract_zip_xml(content, slides.as_slice(), "</a:p>")
            },
            None => {
                proof {
                    let none = Seq::<char>::empty();
                    assert(trim(none).len() == 0);
                }
                None
            },
        },
        Some(DocFormat::Xlsx) => extract_zip_xml(
            content,
            only("xl/sharedStrings.xml").as_slice(),
            "</si>",
        ),
        Some(DocFormat::OpenDocument) => extract_zip_xml(
            content,
            only("content.xml").as_slice(),
            "</text:p>",
        ),
    }
}

/// Slides are read in the order of their numbers, and none is left out.
pub proof fn law_slides_come_in_order(names: Seq<Seq<char>>, a: int, b: int)
    requires
        slides_among(names).len() <= usize::MAX,
        0 <= a < b < slides_in_order(names).len(),
    ensures
        slides_in_order(names).len() == slides_among(names).len(),
        slide_number(slides_in_order(names)[a]) <= slide_number(slides_in_order(names)[b]),
{
    let slides = slides_among(names);
    let keys = slides.map_values(|s: Seq<char>| slide_number(s));
    law_stable_order(keys, keys.len());
    let order = stable_order(keys, keys.len());
    assert(comes_before(keys, order[a], order[b]));
}

/// A paragraph as documents write it: an opening tag with some name, the text, and
/// the closing tag.
pub open spec fn paragraph(name: Seq<char>, text: Seq<char>, tag: Seq<char>) -> Seq<char> {
    seq!['<'] + name + seq!['>'] + encoded(text) + tag
}

/// Paragraphs one after the other.
pub open spec fn paragraphs(name: Seq<char>, list: Seq<Seq<char>>, tag: Seq<char>) -> Seq<char>
    decreases list.len(),
{
    if list.len() == 0 {
        Seq::empty()
    } else {
        paragraph(name, list[0], tag) + paragraphs(name, list.drop_first(), tag)
    }
}

/// Lines one after the other, each ended by a line feed.
pub open spec fn as_lines(list: Seq<Seq<char>>) -> Seq<char>
    decreases list.len(),
{
    if list.len() == 0 {
        Seq::empty()
    } else {
        list[0] + seq!['\n'] + as_lines(list.drop_first())
    }
}

/// Whether a text can stand in one line as it is: no line break, and no white space
/// at its ends.
pub open spec fn is_line(s: Seq<char>) -> bool {
    &&& s.len() > 0
    &&& !s.contains('\n')
    &&& !is_space(s[0])
    &&& !is_space(s.last())
}

/// The text of a document is the text of its paragraphs, one to a line, whatever the
/// paragraphs hold that the document has to write in another way.
pub proof fn law_paragraphs_become_lines(name: Seq<char>, list: Seq<Seq<char>>, tag: Seq<char>)
    requires
        name.len() > 0,
        name[0] != '/',
        !name.contains('<'),
        !name.contains('>'),
        tag.len() > 2,
        tag[0] == '<',
        tag[1] == '/',
        forall|i: int| 0 <= i < list.len() ==> is_line(#[trigger] list[i]),
    ensures
        stripped(paragraphs(name, list, tag), tag) == as_lines(list),
{
    lemma_broken(name, list, tag);
    lemma_tags_dropped(name, list);
    lemma_encoded_lines(list);
    law_decoding_gives_back_the_text(as_lines(list));
    lemma_lines_of(list);
    lemma_trimmed_lines(list);
}

/// Paragraphs with line feeds in place of their closing tags.
spec fn broken_up(name: Seq<char>, list: Seq<Seq<char>>) -> Seq<char>
    decreases list.len(),
{
    if list.len() == 0 {
        Seq::empty()
    } else {
        seq!['<'] + name + seq!['>'] + encoded(list[0]) + seq!['\n'] + broken_up(
            name,
            list.drop_first(),
        )
    }
}

/// What a document writes for a text holds no angle brackets.
proof fn lemma_encoded_plain(s: Seq<char>)
    ensures
        !encoded(s).contains('<'),
        !encoded(s).contains('>'),
    decreases s.len(),
{
    reveal_strlit("&lt;");
    reveal_strlit("&gt;");
    reveal_strlit("&quot;");
    reveal_strlit("&apos;");
    reveal_strlit("&amp;");
    if s.len() > 0 {
        lemma_encoded_plain(s.drop_first());
        let e = entity(s[0]);
        let rest = encoded(s.drop_first());
        assert forall|k: int| 0 <= k < e.len() implies e[k] != '<' && e[k] != '>' by {}
        assert forall|k: int| 0 <= k < encoded(s).len() implies encoded(s)[k] != '<' && encoded(
            s,
        )[k] != '>' by {
            if k >= e.len() {
                assert(encoded(s)[k] == rest[k - e.len()]);
                assert(rest.contains(rest[k - e.len()]));
            }
        }
    }
}

proof fn lemma_broken(name: Seq<char>, list: Seq<Seq<char>>, tag: Seq<char>)
    requires
        name.len() > 0,
        name[0] != '/',
        !name.contains('<'),
        !name.contains('>'),
        tag.len() > 2,
        tag[0] == '<',
        tag[1] == '/',
    ensures
        replace_all(paragraphs(name, list, tag), tag, seq!['\n']) == broken_up(name, list),
    decreases list.len(),
{
    if list.len() > 0 {
        let rest = paragraphs(name, list.drop_first(), tag);
        lemma_broken(name, list.drop_first(), tag);
        let text = encoded(list[0]);
        lemma_encoded_plain(list[0]);
        let piece = seq!['<'] + name + seq!['>'] + text;
        assert forall|i: int| 0 <= i < piece.len() implies (#[trigger] piece[i]) != tag[0] || (
        tag.len() > 2 && i + 2 < piece.len() && (piece[i + 1] != tag[1] || piece[i + 2]
            != tag[2])) by {
            if i == 0 {
                assert(piece[1] == name[0]);
            } else if i <= name.len() {
                assert(piece[i] == name[i - 1]);
                assert(name.contains(name[i - 1]));
            } else if i > name.len() + 1 {
                assert(piece[i] == text[i - name.len() - 2]);
                assert(text.contains(text[i - name.len() - 2]));
            }
        }
        let tail = tag + rest;
        lemma_replace_passes(piece, tail, tag, seq!['\n']);
        assert(paragraphs(name, list, tag) =~= piece + tail);
        assert(tail.subrange(0, tag.len() as int) =~= tag);
        assert(tag.is_prefix_of(tail));
        assert(tail.skip(tag.len() as int) =~= rest);
        assert(replace_all(tail, tag, seq!['\n']) == seq!['\n'] + replace_all(
            rest,
            tag,
            seq!['\n'],
        ));
        assert(broken_up(name, list) =~= piece + (seq!['\n'] + broken_up(name, list.drop_first())));
    }
}

/// What stands outside of tags in two texts, of which the first leaves no tag open.
proof fn lemma_outside_on(a: Seq<char>, b: Seq<char>)
    requires
        !outside_tags(a).1,
    ensures
        outside_tags(a + b).0 == outside_tags(a).0 + outside_tags(b).0,
        outside_tags(a + b).1 == outside_tags(b).1,
    decreases b.len(),
{
    if b.len() == 0 {
        assert(a + b =~= a);
        assert(outside_tags(a).0 + outside_tags(b).0 =~= outside_tags(a).0);
    } else {
        lemma_outside_on(a, b.drop_last());
        assert((a + b).drop_last() =~= a + b.drop_last());
        let x = outside_tags(a).0;
        let y = outside_tags(b.drop_last()).0;
        assert((x + y).push(b.last()) =~= x + y.push(b.last()));
    }
}

/// A tag leaves nothing behind.
proof fn lemma_tag(name: Seq<char>)
    requires
        !name.contains('<'),
        !name.contains('>'),
    ensures
        outside_tags(seq!['<'] + name) == (Seq::<char>::empty(), true),
        outside_tags(seq!['<'] + name + seq!['>']) == (Seq::<char>::empty(), false),
    decreases name.len(),
{
    let open = seq!['<'] + name;
    if name.len() == 0 {
        assert(open =~= seq!['<']);
        assert(open.drop_last() =~= Seq::<char>::empty());
        assert(outside_tags(open.drop_last()) == (Seq::<char>::empty(), false));
    } else {
        let front = name.drop_last();
        assert(name[name.len() - 1] == name.last());
        assert forall|k: int| 0 <= k < front.len() implies front[k] != '<' && front[k] != '>' by {
            assert(name.contains(name[k]));
        }
        lemma_tag(front);
        assert(open.drop_last() =~= seq!['<'] + front);
        assert(name.contains(name.last()));
    }
    let closed = open + seq!['>'];
    assert(closed.drop_last() =~= open);
}

proof fn lemma_tags_dropped(name: Seq<char>, list: Seq<Seq<char>>)
    requires
        !name.contains('<'),
        !name.contains('>'),
    ensures
        outside_tags(broken_up(name, list)).0 == encoded_lines(list),
        !outside_tags(broken_up(name, list)).1,
    decreases list.len(),
{
    if list.len() > 0 {
        lemma_tags_dropped(name, list.drop_first());
        lemma_tag(name);
        let rest = broken_up(name, list.drop_first());
        let open = seq!['<'] + name + seq!['>'];
        let text = encoded(list[0]) + seq!['\n'];
        lemma_encoded_plain(list[0]);
        assert(!text.contains('<') && !text.contains('>')) by {
            assert forall|k: int| 0 <= k < text.len() implies text[k] != '<' && text[k] != '>' by {
                if k < encoded(list[0]).len() {
                    assert(encoded(list[0]).contains(encoded(list[0])[k]));
                }
            }
        }
        law_plain_text_is_kept(text);
        lemma_outside_on(open, text);
        lemma_outside_on(open + text, rest);
        assert(broken_up(name, list) =~= open + text + rest);
        assert(Seq::<char>::empty() + text =~= text);
        assert(encoded_lines(list) =~= text + encoded_lines(list.drop_first()));
    }
}

/// Lines as a document writes them.
spec fn encoded_lines(list: Seq<Seq<char>>) -> Seq<char>
    decreases list.len(),
{
    if list.len() == 0 {
        Seq::empty()
    } else {
        encoded(list[0]) + seq!['\n'] + encoded_lines(list.drop_first())
    }
}

proof fn lemma_encoded_on(a: Seq<char>, b: Seq<char>)
    ensures
        encoded(a + b) == encoded(a) + encoded(b),
    decreases a.len(),
{
    if a.len() == 0 {
        assert(a + b =~= b);
        assert(encoded(a) + encoded(b) =~= encoded(b));
    } else {
        lemma_encoded_on(a.drop_first(), b);
        assert((a + b).drop_first() =~= a.drop_first() + b);
        assert(entity(a[0]) + (encoded(a.drop_first()) + encoded(b)) =~= (entity(a[0]) + encoded(
            a.drop_first(),
        )) + encoded(b));
    }
}

proof fn lemma_encoded_lines(list: Seq<Seq<char>>)
    ensures
        encoded_lines(list) == encoded(as_lines(list)),
    decreases list.len(),
{
    if list.len() > 0 {
        let rest = as_lines(list.drop_first());
        lemma_encoded_lines(list.drop_first());
        let feed = seq!['\n'];
        assert(feed.drop_first() =~= Seq::<char>::empty());
        assert(encoded(feed) =~= feed) by {
            assert(encoded(feed.drop_first()) =~= Seq::<char>::empty());
        }
        lemma_encoded_on(list[0], feed);
        lemma_encoded_on(list[0] + feed, rest);
    }
}

/// The pieces between the line feeds of lines: the lines, and nothing behind them.
proof fn lemma_split_lines(list: Seq<Seq<char>>)
    requires
        forall|i: int| 0 <= i < list.len() ==> is_line(#[trigger] list[i]),
    ensures
        split_on(as_lines(list), '\n') == list.push(Seq::empty()),
    decreases list.len(),
{
    let all = list.push(Seq::<char>::empty());
    assert forall|i: int| 0 <= i < all.len() implies !(#[trigger] all[i]).contains('\n') by {
        if i < list.len() {
            assert(is_line(list[i]));
        }
    }
    lemma_split_join(all, '\n');
    lemma_join_lines(list);
}

proof fn lemma_join_lines(list: Seq<Seq<char>>)
    ensures
        join(list.push(Seq::empty()), seq!['\n']) == as_lines(list),
    decreases list.len(),
{
    let none = Seq::<char>::empty();
    let all = list.push(none);
    if list.len() == 0 {
        assert(all =~= seq![none]);
    } else {
        let rest = list.drop_first().push(none);
        lemma_join_lines(list.drop_first());
        lemma_join_cons(list[0], rest, seq!['\n']);
        assert(all =~= seq![list[0]] + rest);
    }
}

proof fn lemma_lines_of(list: Seq<Seq<char>>)
    requires
        forall|i: int| 0 <= i < list.len() ==> is_line(#[trigger] list[i]),
    ensures
        lines_of(as_lines(list)) == list,
{
    lemma_split_lines(list);
    let pieces = split_on(as_lines(list), '\n');
    assert(pieces.drop_last() =~= list);
    assert(pieces.last().len() == 0);
    let ended = pieces.drop_last().map_values(|p: Seq<char>| without_return(p));
    assert forall|i: int| 0 <= i < list.len() implies ended[i] == list[i] by {
        assert(is_line(list[i]));
        assert(is_space('\r'));
    }
    assert(ended =~= list);
}

proof fn lemma_trimmed_lines(list: Seq<Seq<char>>)
    requires
        forall|i: int| 0 <= i < list.len() ==> is_line(#[trigger] list[i]),
    ensures
        trimmed_lines(list) == as_lines(list),
    decreases list.len(),
{
    if list.len() > 0 {
        let front = list.drop_last();
        assert forall|i: int| 0 <= i < front.len() implies is_line(#[trigger] front[i]) by {
            assert(front[i] == list[i]);
        }
        lemma_trimmed_lines(front);
        assert(is_line(list[list.len() - 1]));
        assert(trim(list.last()) == list.last());
        lemma_as_lines_push(front, list.last());
        assert(front.push(list.last()) =~= list);
        assert(list.last().push('\n') =~= list.last() + seq!['\n']);
    }
}

proof fn lemma_as_lines_push(list: Seq<Seq<char>>, last: Seq<char>)
    ensures
        as_lines(list.push(last)) == as_lines(list) + (last + seq!['\n']),
    decreases list.len(),
{
    let all = list.push(last);
    if list.len() == 0 {
        assert(all.drop_first() =~= Seq::<Seq<char>>::empty());
        assert(as_lines(all.drop_first()) =~= Seq::<char>::empty());
        assert(as_lines(all) =~= last + seq!['\n']);
        assert(as_lines(list) + (last + seq!['\n']) =~= last + seq!['\n']);
    } else {
        lemma_as_lines_push(list.drop_first(), last);
        assert(all.drop_first() =~= list.drop_first().push(last));
        assert(all[0] == list[0]);
        assert(as_lines(all) =~= as_lines(list) + (last + seq!['\n']));
    }
}

/// The documents and where their text is: Word in one member, sheets in the strings
/// that they share, and open documents in their content; presentations in the
/// members of their slides.
pub proof fn law_formats_go_by_extension(ext: Seq<char>, archive: Seq<u8>)
    ensures
        DocFormat::of_extension("pdf"@) == Some(DocFormat::Pdf),
        DocFormat::of_extension("docx"@) == Some(DocFormat::Docx),
        DocFormat::of_extension("pptx"@) == Some(DocFormat::Pptx),
        DocFormat::of_extension("xlsx"@) == Some(DocFormat::Xlsx),
        DocFormat::of_extension("odt"@) == Some(DocFormat::OpenDocument),
        DocFormat::of_extension("ods"@) == Some(DocFormat::OpenDocument),
        DocFormat::of_extension("odp"@) == Some(DocFormat::OpenDocument),
        DocFormat::of_extension(ext) is Some <==> texts(DOCUMENT_FORMATS@).contains(ext),
        DocFormat::Docx.members(archive) == seq!["word/document.xml"@],
        DocFormat::Xlsx.members(archive) == seq!["xl/sharedStrings.xml"@],
        DocFormat::OpenDocument.members(archive) == seq!["content.xml"@],
        DocFormat::Docx.para_tag() == "</w:p>"@,
        DocFormat::Pptx.para_tag() == "</a:p>"@,
        DocFormat::Xlsx.para_tag() == "</si>"@,
        DocFormat::OpenDocument.para_tag() == "</text:p>"@,
{
    reveal_strlit("pdf");
    reveal_strlit("docx");
    reveal_strlit("pptx");
    reveal_strlit("xlsx");
    reveal_strlit("odt");
    reveal_strlit("odp");
    reveal_strlit("ods");
    let all = texts(DOCUMENT_FORMATS@);
    assert(all[0] == "pdf"@ && all[1] == "docx"@ && all[2] == "pptx"@ && all[3] == "xlsx"@ && all[4]
        == "odt"@ && all[5] == "odp"@ && all[6] == "ods"@);
    assert("pdf"@[0] == 'p' && "docx"@[0] == 'd' && "xlsx"@[0] == 'x' && "odt"@[0] == 'o');
    assert("pdf"@.len() == 3 && "pptx"@.len() == 4);
    assert("pptx"@[0] == 'p');
    assert("odt"@[2] == 't' && "odp"@[2] == 'p' && "ods"@[2] == 's');
}

/// The slides of a presentation are all read, each once, and nothing else is.
pub proof fn law_every_slide_is_read(names: Seq<Seq<char>>, name: Seq<char>)
    requires
        slides_among(names).len() <= usize::MAX,
    ensures
        slides_in_order(names).contains(name) <==> names.contains(name) && occurs_at(
            name,
            "ppt/slides/slide"@,
            0,
        ) && occurs_at(name, ".xml"@, name.len() - 4),
{
    reveal_strlit(".xml");
    let slides = slides_among(names);
    let keys = slides.map_values(|s: Seq<char>| slide_number(s));
    law_stable_order(keys, keys.len());
    let order = stable_order(keys, keys.len());
    let out = slides_in_order(names);
    lemma_slides_among(names, name);
    if out.contains(name) {
        let k = choose|k: int| 0 <= k < out.len() && out[k] == name;
        assert(out[k] == slides[order[k] as int]);
        assert(slides.contains(name));
    }
    if slides.contains(name) {
        let i = choose|i: int| 0 <= i < slides.len() && slides[i] == name;
        law_order_leaves_nothing_out(keys, keys.len(), i);
        let k = choose|k: int| 0 <= k < order.len() && order[k] == i as usize;
        assert(out[k] == name);
    }
}

proof fn lemma_slides_among(names: Seq<Seq<char>>, name: Seq<char>)
    ensures
        slides_among(names).contains(name) <==> names.contains(name) && is_slide(name),
    decreases names.len(),
{
    if names.len() > 0 {
        let front = names.drop_last();
        lemma_slides_among(front, name);
        let before = slides_among(front);
        let now = slides_among(names);
        assert(names[names.len() - 1] == names.last());
        if before.contains(name) {
            let k = choose|k: int| 0 <= k < before.len() && before[k] == name;
            assert(now[k] == name);
        }
        if front.contains(name) {
            let k = choose|k: int| 0 <= k < front.len() && front[k] == name;
            assert(names[k] == name);
        }
        if names.contains(name) && names.last() != name {
            let k = choose|k: int| 0 <= k < names.len() && names[k] == name;
            assert(front[k] == name);
        }
        if names.last() == name && is_slide(name) {
            assert(now.last() == name);
        }
        if now.contains(name) && !before.contains(name) {
            let k = choose|k: int| 0 <= k < now.len() && now[k] == name;
            if k < before.len() {
                assert(before[k] == name);
            }
        }
    }
}

/// The text of a document in which one member holds paragraphs is the text of the
/// paragraphs, one to a line, without a line break at the end.
pub proof fn law_documents_are_read_by_paragraph(
    path: Seq<char>,
    archive: Seq<u8>,
    pdf_text: Option<Seq<char>>,
    name: Seq<char>,
    list: Seq<Seq<char>>,
)
    requires
        name.len() > 0,
        name[0] != '/',
        !name.contains('<'),
        !name.contains('>'),
        list.len() > 0,
        forall|i: int| 0 <= i < list.len() ==> is_line(#[trigger] list[i]),
    ensures
        DocFormat::of_path(path) == Some(DocFormat::Docx) && zip_text(archive, "word/document.xml"@)
            == Some(paragraphs(name, list, "</w:p>"@)) ==> (document_text(
            path,
            archive,
            pdf_text,
        ) matches Some(t) && t + seq!['\n'] == as_lines(list)),
        DocFormat::of_path(path) == Some(DocFormat::Xlsx) && zip_text(
            archive,
            "xl/sharedStrings.xml"@,
        ) == Some(paragraphs(name, list, "</si>"@)) ==> (document_text(
            path,
            archive,
            pdf_text,
        ) matches Some(t) && t + seq!['\n'] == as_lines(list)),
        DocFormat::of_path(path) == Some(DocFormat::OpenDocument) && zip_text(
            archive,
            "content.xml"@,
        ) == Some(paragraphs(name, list, "</text:p>"@)) ==> (document_text(
            path,
            archive,
            pdf_text,
        ) matches Some(t) && t + seq!['\n'] == as_lines(list)),
        DocFormat::of_path(path) == Some(DocFormat::Pdf) ==> document_text(path, archive, pdf_text)
            == pdf_text,
{
    reveal_strlit("</w:p>");
    reveal_strlit("</si>");
    reveal_strlit("</text:p>");
    lemma_ends_in_break(list);
    if zip_text(archive, "word/document.xml"@) == Some(paragraphs(name, list, "</w:p>"@)) {
        law_paragraphs_become_lines(name, list, "</w:p>"@);
        lemma_one_member(archive, "word/document.xml"@, "</w:p>"@);
    }
    if zip_text(archive, "xl/sharedStrings.xml"@) == Some(paragraphs(name, list, "</si>"@)) {
        law_paragraphs_become_lines(name, list, "</si>"@);
        lemma_one_member(archive, "xl/sharedStrings.xml"@, "</si>"@);
    }
    if zip_text(archive, "content.xml"@) == Some(paragraphs(name, list, "</text:p>"@)) {
        law_paragraphs_become_lines(name, list, "</text:p>"@);
        lemma_one_member(archive, "content.xml"@, "</text:p>"@);
    }
}

proof fn lemma_one_member(archive: Seq<u8>, name: Seq<char>, tag: Seq<char>)
    requires
        zip_text(archive, name) is Some,
    ensures
        members_text(archive, seq![name], tag) == stripped(zip_text(archive, name)->0, tag).push(
            '\n',
        ),
{
    let one = seq![name];
    assert(one.drop_last() =~= Seq::<Seq<char>>::empty());
    assert(members_text(archive, one.drop_last(), tag) =~= Seq::<char>::empty());
    assert(members_text(archive, one, tag) =~= stripped(zip_text(archive, name)->0, tag).push('\n'));
}

/// Lines, with one more line feed, without the white space around them.
proof fn lemma_ends_in_break(list: Seq<Seq<char>>)
    requires
        list.len() > 0,
        forall|i: int| 0 <= i < list.len() ==> is_line(#[trigger] list[i]),
    ensures
        ({
            let t = trim(as_lines(list).push('\n'));
            t.len() > 0 && t + seq!['\n'] == as_lines(list)
        }),
{
    let front = list.drop_last();
    let last = list[list.len() - 1];
    assert(is_line(last));
    assert(is_line(list[0]));
    assert(front.push(last) =~= list);
    lemma_as_lines_push(front, last);
    let all = as_lines(list);
    let text = as_lines(front) + last;
    assert(all =~= text.push('\n'));
    assert(all[0] == list[0][0]);
    assert(text[0] == all[0]);
    let long = all.push('\n');
    assert(long[0] == all[0]);
    assert(trim_start(long) == long);
    assert(is_space('\n'));
    assert(long.drop_last() =~= all);
    assert(all.drop_last() =~= text);
    assert(text.last() == last.last());
    assert(trim_end(text) == text);
    assert(trim_end(all) == text);
    assert(trim_end(long) == text);
    assert(text + seq!['\n'] =~= all);
}

/// The number of a slide is the one in the name of its member.
pub proof fn law_slides_are_numbered_by_name(n: nat)
    requires
        n <= u32::MAX,
    ensures
        slide_number("ppt/slides/slide"@ + decimal(n) + ".xml"@) == n,
        is_slide("ppt/slides/slide"@ + decimal(n) + ".xml"@),
{
    reveal_strlit("ppt/slides/slide");
    reveal_strlit(".xml");
    let head = "ppt/slides/slide"@;
    let digits = decimal(n);
    let tail = ".xml"@;
    let name = head + digits + tail;
    law_decimals_read_back(n);
    law_whole_numbers_are_read(n, u32::MAX as nat);
    assert forall|i: int| 0 <= i < head.len() implies !is_digit(#[trigger] head[i]) by {}
    assert(is_digit(digits[0]));
    lemma_from_digit(head, digits + tail);
    assert(name =~= head + (digits + tail));
    let rest = digits + tail;
    assert(rest.subrange(rest.len() - 4, rest.len() as int) =~= tail);
    assert(occurs_at(rest, tail, rest.len() - tail.len()));
    assert(rest.take(rest.len() - 4) =~= digits);
    assert(!occurs_at(digits, tail, digits.len() - tail.len())) by {
        if occurs_at(digits, tail, digits.len() - tail.len()) {
            let end = digits.subrange(digits.len() - 4, digits.len() as int);
            assert(end[0] == '.');
            assert(is_digit(digits[digits.len() - 4]));
        }
    }
    assert(without_suffix(digits, tail) == digits);
    assert(without_suffix(rest, tail) == digits);
    assert(name.subrange(0, head.len() as int) =~= head);
    assert(occurs_at(name, head, 0));
    assert(name.subrange(name.len() - 4, name.len() as int) =~= tail);
    assert(occurs_at(name, tail, name.len() - tail.len()));
}

proof fn lemma_from_digit(head: Seq<char>, rest: Seq<char>)
    requires
        forall|i: int| 0 <= i < head.len() ==> !is_digit(#[trigger] head[i]),
        rest.len() > 0,
        is_digit(rest[0]),
    ensures
        from_digit(head + rest) == rest,
    decreases head.len(),
{
    if head.len() == 0 {
        assert(head + rest =~= rest);
    } else {
        assert((head + rest)[0] == head[0]);
        assert((head + rest).drop_first() =~= head.drop_first() + rest);
        assert forall|i: int| 0 <= i < head.drop_first().len() implies !is_digit(
            #[trigger] head.drop_first()[i],
        ) by {
            assert(head.drop_first()[i] == head[i + 1]);
        }
        lemma_from_digit(head.drop_first(), rest);
    }
}

}
