//! What each filter of a query comes to: how the search that a query reads as
//! follows from the text of the filter.

use crate::dates::{is_start_of_day, lemma_start_of_day_bound};
use crate::query::{
    after_prefix, blank, bounds_of, clause_of, dates_fit, days_fit, exts_in, first_dots,
    law_joined_queries_are_read_in_turn, lemma_with_tokens_last, quotes, reading, reads_as, tokens,
    with_dates, with_size, with_token, with_tokens, without_dots, Bounds, Clause, MatchMode,
    Reading, SpecView, TypeFilter, CONTENT_PREFIXES, DATE_PREFIXES, EXT_PREFIXES, FILE_WORDS,
    FOLDER_WORDS, PATH_PREFIXES, SIZE_PREFIXES, TYPE_PREFIXES,
};
use crate::text::{is_space, lower, lower_all, split_on, texts, trim};
use crate::util::size_of_text;
use vstd::prelude::*;

verus! {

/// Whether a text is one word of a query: nothing in it separates or quotes.
pub open spec fn is_word(t: Seq<char>) -> bool {
    t.len() > 0 && forall|k: int|
        0 <= k < t.len() ==> !is_space(#[trigger] t[k]) && t[k] != '"'
}

/// Whether a token is a filter word, in any case, followed by `rest`.
pub open spec fn says(t: Seq<char>, word: Seq<char>, rest: Seq<char>) -> bool {
    &&& t.len() == word.len() + rest.len()
    &&& forall|k: int| 0 <= k < word.len() ==> lower(#[trigger] t[k]) == word[k]
    &&& forall|k: int| 0 <= k < rest.len() ==> t[word.len() + k] == #[trigger] rest[k]
}

proof fn lemma_word(t: Seq<char>)
    requires
        is_word(t),
    ensures
        reading(t) == (Reading { done: Seq::empty(), current: t, quoted: false }),
        tokens(t) == seq![t],
        quotes(t) == 0,
    decreases t.len(),
{
    let front = t.drop_last();
    assert(!is_space(t[t.len() - 1]) && t[t.len() - 1] != '"');
    if front.len() > 0 {
        assert forall|k: int| 0 <= k < front.len() implies !is_space(#[trigger] front[k])
            && front[k] != '"' by {
            assert(front[k] == t[k]);
        }
        lemma_word(front);
    } else {
        assert(front =~= Seq::<char>::empty());
        assert(reading(front) == (Reading {
            done: Seq::empty(),
            current: Seq::empty(),
            quoted: false,
        }));
        assert(quotes(front) == 0);
    }
    assert(front.push(t.last()) =~= t);
    assert(Seq::<Seq<char>>::empty().push(t) =~= seq![t]);
}

/// Quotation marks keep white space in a token, and are not part of it.
pub proof fn law_quotes_keep_spaces(word: Seq<char>, inner: Seq<char>)
    requires
        word.len() == 0 || is_word(word),
        !inner.contains('"'),
        word.len() + inner.len() > 0,
    ensures
        tokens(word + seq!['"'] + inner + seq!['"']) == seq![word + inner],
{
    let open = word + seq!['"'];
    assert(open.drop_last() =~= word);
    if word.len() > 0 {
        lemma_word(word);
    } else {
        assert(word =~= Seq::<char>::empty());
        assert(reading(word) == (Reading {
            done: Seq::empty(),
            current: Seq::empty(),
            quoted: false,
        }));
    }
    assert(reading(open) == (Reading { done: Seq::empty(), current: word, quoted: true }));
    lemma_quoted_inner(open, word, inner);
    let all = open + inner + seq!['"'];
    assert(all.drop_last() =~= open + inner);
    assert(Seq::<Seq<char>>::empty().push(word + inner) =~= seq![word + inner]);
}

proof fn lemma_quoted_inner(open: Seq<char>, word: Seq<char>, inner: Seq<char>)
    requires
        reading(open) == (Reading { done: Seq::empty(), current: word, quoted: true }),
        !inner.contains('"'),
    ensures
        reading(open + inner) == (Reading {
            done: Seq::empty(),
            current: word + inner,
            quoted: true,
        }),
    decreases inner.len(),
{
    if inner.len() == 0 {
        assert(open + inner =~= open);
        assert(word + inner =~= word);
    } else {
        let front = inner.drop_last();
        assert(inner[inner.len() - 1] == inner.last());
        assert(!front.contains('"')) by {
            if front.contains('"') {
                let k = choose|k: int| 0 <= k < front.len() && front[k] == '"';
                assert(inner[k] == '"');
            }
        }
        lemma_quoted_inner(open, word, front);
        assert((open + inner).drop_last() =~= open + front);
        assert((word + front).push(inner.last()) =~= word + inner);
    }
}

/// A query that ends in one more word reads as the query before it, with that word
/// applied.
proof fn lemma_last_word(
    a: Seq<char>,
    t: Seq<char>,
    mode: MatchMode,
    case_sensitive: bool,
    v: SpecView,
) -> (r: (SpecView, Option<i64>, Option<i64>))
    requires
        quotes(a) % 2 == 0,
        is_word(t),
        reads_as(a.push(' ') + t, mode, case_sensitive, v),
    ensures
        reads_as(a, mode, case_sensitive, r.0),
        v == with_token(r.0, t, r.1, r.2),
        clause_of(t) matches Clause::Date(rest) ==> dates_fit(rest, r.1, r.2),
{
    let start = blank(mode, case_sensitive);
    let la = tokens(a);
    let all = tokens(a.push(' ') + t);
    let d = choose|days: Seq<(Option<i64>, Option<i64>)>| #[trigger]
        days_fit(all, days) && v == with_tokens(start, all, days);
    lemma_word(t);
    let none = (None::<i64>, None::<i64>);
    law_joined_queries_are_read_in_turn(a, t, start, la.map_values(|x: Seq<char>| none), seq![none]);
    assert(all =~= la.push(t));
    let d1 = d.drop_last();
    assert(all.drop_last() =~= la);
    let va = with_tokens(start, la, d1);
    assert forall|i: int| 0 <= i < la.len() implies (clause_of(#[trigger] la[i]) matches Clause::Date(
        rest,
    ) ==> dates_fit(rest, d1[i].0, d1[i].1)) by {
        assert(all[i] == la[i]);
        assert(d1[i] == d[i]);
    }
    assert(days_fit(la, d1));
    assert(all[la.len() as int] == t);
    assert(d[la.len() as int] == d.last());
    let now = with_token(va, t, d.last().0, d.last().1);
    lemma_with_tokens_last(start, all, d, va, t, d.last(), now);
    (va, d.last().0, d.last().1)
}

proof fn lemma_says(t: Seq<char>, word: Seq<char>)
    requires
        word.len() >= 2,
    ensures
        word.is_prefix_of(lower_all(t)) <==> says(t, word, t.skip(word.len() as int)),
        word.is_prefix_of(lower_all(t)) ==> t.len() >= 2 && lower(t[0]) == word[0] && lower(t[1])
            == word[1],
{
    let low = lower_all(t);
    if word.is_prefix_of(low) {
        assert(word == low.subrange(0, word.len() as int));
        assert forall|k: int| 0 <= k < word.len() implies lower(#[trigger] t[k]) == word[k] by {
            assert(word[k] == low.subrange(0, word.len() as int)[k]);
        }
        assert(lower(t[0]) == word[0] && lower(t[1]) == word[1]);
    }
    if says(t, word, t.skip(word.len() as int)) {
        assert forall|k: int| 0 <= k < word.len() implies word[k] == #[trigger] low.subrange(
            0,
            word.len() as int,
        )[k] by {
            assert(lower(t[k]) == word[k]);
        }
        assert(word =~= low.subrange(0, word.len() as int));
    }
}

/// What a token says is what its prefix says, in any case: `ext:` or `e:`, `path:`,
/// `p:` or `in:`, `size:` or `s:`, `date:`, `dm:` or `modified:`, `type:` or `t:`,
/// `content:`, `c:` or `grep:`. What begins with none of them is a name.
pub proof fn law_filters_go_by_their_prefix(t: Seq<char>, rest: Seq<char>)
    ensures
        says(t, "ext:"@, rest) || says(t, "e:"@, rest) ==> clause_of(t) == Clause::Ext(rest),
        says(t, "path:"@, rest) || says(t, "p:"@, rest) || says(t, "in:"@, rest) ==> clause_of(t)
            == Clause::Path(rest),
        says(t, "size:"@, rest) || says(t, "s:"@, rest) ==> clause_of(t) == Clause::Size(rest),
        says(t, "date:"@, rest) || says(t, "dm:"@, rest) || says(t, "modified:"@, rest)
            ==> clause_of(t) == Clause::Date(rest),
        says(t, "type:"@, rest) || says(t, "t:"@, rest) ==> clause_of(t) == Clause::Type(rest),
        says(t, "content:"@, rest) || says(t, "c:"@, rest) || says(t, "grep:"@, rest)
            ==> clause_of(t) == Clause::Content(rest),
        clause_of(t) is Name <==> !(clause_of(t) is Ext || clause_of(t) is Path || clause_of(
            t,
        ) is Size || clause_of(t) is Date || clause_of(t) is Type || clause_of(t) is Content),
        clause_of(t) is Name ==> clause_of(t) == Clause::Name(t),
        (forall|k: int| 0 <= k < t.len() ==> t[k] != ':') ==> clause_of(t) == Clause::Name(t),
{
    lemma_prefix_texts();
    reveal_with_fuel(after_prefix, 4);
    let e = texts(EXT_PREFIXES@);
    let p = texts(PATH_PREFIXES@);
    let s = texts(SIZE_PREFIXES@);
    let d = texts(DATE_PREFIXES@);
    let y = texts(TYPE_PREFIXES@);
    let c = texts(CONTENT_PREFIXES@);
    lemma_two(t, e);
    lemma_three(t, p);
    lemma_two(t, s);
    lemma_three(t, d);
    lemma_two(t, y);
    lemma_three(t, c);
    lemma_rest(t, "ext:"@, rest);
    lemma_rest(t, "e:"@, rest);
    lemma_rest(t, "path:"@, rest);
    lemma_rest(t, "p:"@, rest);
    lemma_rest(t, "in:"@, rest);
    lemma_rest(t, "size:"@, rest);
    lemma_rest(t, "s:"@, rest);
    lemma_rest(t, "date:"@, rest);
    lemma_rest(t, "dm:"@, rest);
    lemma_rest(t, "modified:"@, rest);
    lemma_rest(t, "type:"@, rest);
    lemma_rest(t, "t:"@, rest);
    lemma_rest(t, "content:"@, rest);
    lemma_rest(t, "c:"@, rest);
    lemma_rest(t, "grep:"@, rest);
}

proof fn lemma_two(t: Seq<char>, list: Seq<Seq<char>>)
    requires
        list.len() == 2,
    ensures
        after_prefix(t, list) == (if list[0].is_prefix_of(lower_all(t)) {
            Some(t.skip(list[0].len() as int))
        } else if list[1].is_prefix_of(lower_all(t)) {
            Some(t.skip(list[1].len() as int))
        } else {
            None
        }),
{
    reveal_with_fuel(after_prefix, 3);
}

proof fn lemma_three(t: Seq<char>, list: Seq<Seq<char>>)
    requires
        list.len() == 3,
    ensures
        after_prefix(t, list) == (if list[0].is_prefix_of(lower_all(t)) {
            Some(t.skip(list[0].len() as int))
        } else if list[1].is_prefix_of(lower_all(t)) {
            Some(t.skip(list[1].len() as int))
        } else if list[2].is_prefix_of(lower_all(t)) {
            Some(t.skip(list[2].len() as int))
        } else {
            None
        }),
{
    reveal_with_fuel(after_prefix, 4);
}

/// What a filter word leaves of a token, and how the token begins. Every filter
/// word ends in a colon.
proof fn lemma_rest(t: Seq<char>, word: Seq<char>, rest: Seq<char>)
    requires
        word.len() >= 2,
        word.last() == ':',
    ensures
        says(t, word, rest) ==> word.is_prefix_of(lower_all(t)) && t.skip(word.len() as int) == rest,
        word.is_prefix_of(lower_all(t)) ==> t.len() >= 2 && lower(t[0]) == word[0] && lower(t[1])
            == word[1] && t.contains(':'),
{
    lemma_says(t, word);
    if says(t, word, rest) {
        assert(t.skip(word.len() as int) =~= rest);
    }
    if word.is_prefix_of(lower_all(t)) {
        let k = word.len() - 1;
        assert(lower(t[k]) == word[k]);
        assert(t[k] == ':');
    }
}

proof fn lemma_prefix_texts()
    ensures
        texts(EXT_PREFIXES@).len() == 2,
        texts(EXT_PREFIXES@)[0] == "ext:"@,
        texts(EXT_PREFIXES@)[1] == "e:"@,
        texts(PATH_PREFIXES@).len() == 3,
        texts(PATH_PREFIXES@)[0] == "path:"@,
        texts(PATH_PREFIXES@)[1] == "p:"@,
        texts(PATH_PREFIXES@)[2] == "in:"@,
        texts(SIZE_PREFIXES@).len() == 2,
        texts(SIZE_PREFIXES@)[0] == "size:"@,
        texts(SIZE_PREFIXES@)[1] == "s:"@,
        texts(DATE_PREFIXES@).len() == 3,
        texts(DATE_PREFIXES@)[0] == "date:"@,
        texts(DATE_PREFIXES@)[1] == "dm:"@,
        texts(DATE_PREFIXES@)[2] == "modified:"@,
        texts(TYPE_PREFIXES@).len() == 2,
        texts(TYPE_PREFIXES@)[0] == "type:"@,
        texts(TYPE_PREFIXES@)[1] == "t:"@,
        texts(CONTENT_PREFIXES@).len() == 3,
        texts(CONTENT_PREFIXES@)[0] == "content:"@,
        texts(CONTENT_PREFIXES@)[1] == "c:"@,
        texts(CONTENT_PREFIXES@)[2] == "grep:"@,
        "ext:"@ == seq!['e', 'x', 't', ':'],
        "e:"@ == seq!['e', ':'],
        "path:"@ == seq!['p', 'a', 't', 'h', ':'],
        "p:"@ == seq!['p', ':'],
        "in:"@ == seq!['i', 'n', ':'],
        "size:"@ == seq!['s', 'i', 'z', 'e', ':'],
        "s:"@ == seq!['s', ':'],
        "date:"@ == seq!['d', 'a', 't', 'e', ':'],
        "dm:"@ == seq!['d', 'm', ':'],
        "modified:"@ == seq!['m', 'o', 'd', 'i', 'f', 'i', 'e', 'd', ':'],
        "type:"@ == seq!['t', 'y', 'p', 'e', ':'],
        "t:"@ == seq!['t', ':'],
        "content:"@ == seq!['c', 'o', 'n', 't', 'e', 'n', 't', ':'],
        "c:"@ == seq!['c', ':'],
        "grep:"@ == seq!['g', 'r', 'e', 'p', ':'],
{
    reveal_strlit("ext:");
    reveal_strlit("e:");
    reveal_strlit("path:");
    reveal_strlit("p:");
    reveal_strlit("in:");
    reveal_strlit("size:");
    reveal_strlit("s:");
    reveal_strlit("date:");
    reveal_strlit("dm:");
    reveal_strlit("modified:");
    reveal_strlit("type:");
    reveal_strlit("t:");
    reveal_strlit("content:");
    reveal_strlit("c:");
    reveal_strlit("grep:");
    assert("ext:"@ =~= seq!['e', 'x', 't', ':']);
    assert("e:"@ =~= seq!['e', ':']);
    assert("path:"@ =~= seq!['p', 'a', 't', 'h', ':']);
    assert("p:"@ =~= seq!['p', ':']);
    assert("in:"@ =~= seq!['i', 'n', ':']);
    assert("size:"@ =~= seq!['s', 'i', 'z', 'e', ':']);
    assert("s:"@ =~= seq!['s', ':']);
    assert("date:"@ =~= seq!['d', 'a', 't', 'e', ':']);
    assert("dm:"@ =~= seq!['d', 'm', ':']);
    assert("modified:"@ =~= seq!['m', 'o', 'd', 'i', 'f', 'i', 'e', 'd', ':']);
    assert("type:"@ =~= seq!['t', 'y', 'p', 'e', ':']);
    assert("t:"@ =~= seq!['t', ':']);
    assert("content:"@ =~= seq!['c', 'o', 'n', 't', 'e', 'n', 't', ':']);
    assert("c:"@ =~= seq!['c', ':']);
    assert("grep:"@ =~= seq!['g', 'r', 'e', 'p', ':']);
}

/// A word without a prefix joins the name terms, as it is spelled.
pub proof fn law_words_are_looked_for_in_names(
    a: Seq<char>,
    t: Seq<char>,
    mode: MatchMode,
    case_sensitive: bool,
    v: SpecView,
)
    requires
        quotes(a) % 2 == 0,
        is_word(t),
        !t.contains(':'),
        reads_as(a.push(' ') + t, mode, case_sensitive, v),
    ensures
        exists|w: SpecView| #[trigger]
            reads_as(a, mode, case_sensitive, w) && v == (SpecView {
                name_terms: w.name_terms.push(t),
                ..w
            }),
{
    law_filters_go_by_their_prefix(t, Seq::empty());
    reveal(with_token);
    let (w, _, _) = lemma_last_word(a, t, mode, case_sensitive, v);
    assert(reads_as(a, mode, case_sensitive, w));
}

/// A `type:` filter asks for files or for folders, whatever filter of that kind
/// stands before it. With another word it says nothing.
pub proof fn law_type_filters_ask_for_a_kind(
    a: Seq<char>,
    t: Seq<char>,
    rest: Seq<char>,
    mode: MatchMode,
    case_sensitive: bool,
    v: SpecView,
)
    requires
        quotes(a) % 2 == 0,
        is_word(t),
        says(t, "type:"@, rest) || says(t, "t:"@, rest),
        reads_as(a.push(' ') + t, mode, case_sensitive, v),
    ensures
        exists|w: SpecView| #[trigger]
            reads_as(a, mode, case_sensitive, w) && v == (SpecView {
                type_filter: if lower_all(rest) == "file"@ || lower_all(rest) == "files"@
                    || lower_all(rest) == "f"@ {
                    TypeFilter::File
                } else if lower_all(rest) == "folder"@ || lower_all(rest) == "folders"@
                    || lower_all(rest) == "dir"@ || lower_all(rest) == "dirs"@ || lower_all(rest)
                    == "d"@ {
                    TypeFilter::Folder
                } else {
                    w.type_filter
                },
                ..w
            }),
{
    law_filters_go_by_their_prefix(t, rest);
    let (w, first, second) = lemma_last_word(a, t, mode, case_sensitive, v);
    lemma_type_token(w, t, rest, first, second, v);
    assert(reads_as(a, mode, case_sensitive, w));
}

proof fn lemma_type_token(
    w: SpecView,
    t: Seq<char>,
    rest: Seq<char>,
    first: Option<i64>,
    second: Option<i64>,
    v: SpecView,
)
    requires
        clause_of(t) == Clause::Type(rest),
        v == with_token(w, t, first, second),
    ensures
        v == (SpecView {
            type_filter: if lower_all(rest) == "file"@ || lower_all(rest) == "files"@ || lower_all(
                rest,
            ) == "f"@ {
                TypeFilter::File
            } else if lower_all(rest) == "folder"@ || lower_all(rest) == "folders"@ || lower_all(
                rest,
            ) == "dir"@ || lower_all(rest) == "dirs"@ || lower_all(rest) == "d"@ {
                TypeFilter::Folder
            } else {
                w.type_filter
            },
            ..w
        }),
{
    reveal(with_token);
    lemma_kind_words(lower_all(rest));
}

proof fn lemma_kind_words(x: Seq<char>)
    ensures
        texts(FILE_WORDS@).contains(x) <==> x == "file"@ || x == "files"@ || x == "f"@,
        texts(FOLDER_WORDS@).contains(x) <==> x == "folder"@ || x == "folders"@ || x == "dir"@ || x
            == "dirs"@ || x == "d"@,
{
    let files = texts(FILE_WORDS@);
    let folders = texts(FOLDER_WORDS@);
    assert(files.len() == 3 && folders.len() == 5);
    assert(files[0] == "file"@ && files[1] == "files"@ && files[2] == "f"@);
    assert(folders[0] == "folder"@ && folders[1] == "folders"@ && folders[2] == "dir"@
        && folders[3] == "dirs"@ && folders[4] == "d"@);
}

/// A `path:` filter asks for a part of the path, and a `content:` filter for text
/// in the file, both as they are spelled. Without a text they say nothing.
pub proof fn law_path_and_content_filters_ask_for_text(
    a: Seq<char>,
    t: Seq<char>,
    rest: Seq<char>,
    mode: MatchMode,
    case_sensitive: bool,
    v: SpecView,
)
    requires
        quotes(a) % 2 == 0,
        is_word(t),
        reads_as(a.push(' ') + t, mode, case_sensitive, v),
    ensures
        says(t, "path:"@, rest) || says(t, "p:"@, rest) || says(t, "in:"@, rest) ==> exists|
            w: SpecView,
        | #[trigger]
            reads_as(a, mode, case_sensitive, w) && v == (SpecView {
                path_terms: if rest.len() > 0 {
                    w.path_terms.push(rest)
                } else {
                    w.path_terms
                },
                ..w
            }),
        says(t, "content:"@, rest) || says(t, "c:"@, rest) || says(t, "grep:"@, rest) ==> exists|
            w: SpecView,
        | #[trigger]
            reads_as(a, mode, case_sensitive, w) && v == (SpecView {
                content: if rest.len() > 0 {
                    Some(rest)
                } else {
                    w.content
                },
                ..w
            }),
{
    law_filters_go_by_their_prefix(t, rest);
    reveal(with_token);
    let (w, _, _) = lemma_last_word(a, t, mode, case_sensitive, v);
    assert(reads_as(a, mode, case_sensitive, w));
}

/// An `ext:` filter adds the extensions of its list.
pub proof fn law_ext_filters_add_extensions(
    a: Seq<char>,
    t: Seq<char>,
    rest: Seq<char>,
    mode: MatchMode,
    case_sensitive: bool,
    v: SpecView,
)
    requires
        quotes(a) % 2 == 0,
        is_word(t),
        says(t, "ext:"@, rest) || says(t, "e:"@, rest),
        reads_as(a.push(' ') + t, mode, case_sensitive, v),
    ensures
        exists|w: SpecView| #[trigger]
            reads_as(a, mode, case_sensitive, w) && v == (SpecView {
                exts: w.exts + exts_in(split_on(rest, ',')),
                ..w
            }),
{
    law_filters_go_by_their_prefix(t, rest);
    reveal(with_token);
    let (w, _, _) = lemma_last_word(a, t, mode, case_sensitive, v);
    assert(reads_as(a, mode, case_sensitive, w));
}

/// The extensions of a list, one behind a comma after the others: those of the
/// others and then that one, in lower case, without white space around it and
/// dots in front. One of which nothing is left is passed over.
pub proof fn law_extension_lists_are_read_in_order(
    before: Seq<char>,
    dots: Seq<char>,
    ext: Seq<char>,
)
    requires
        forall|k: int| 0 <= k < dots.len() ==> #[trigger] dots[k] == '.',
        ext.len() > 0 ==> ext[0] != '.' && !is_space(ext[0]) && !is_space(ext.last()),
        !ext.contains(','),
    ensures
        exts_in(split_on(dots + ext, ',')) == (if ext.len() > 0 {
            seq![lower_all(ext)]
        } else {
            Seq::<Seq<char>>::empty()
        }),
        exts_in(split_on(before + seq![','] + (dots + ext), ',')) == exts_in(
            split_on(before, ','),
        ) + (if ext.len() > 0 {
            seq![lower_all(ext)]
        } else {
            Seq::<Seq<char>>::empty()
        }),
{
    let piece = dots + ext;
    assert(!piece.contains(',')) by {
        if piece.contains(',') {
            let k = choose|k: int| 0 <= k < piece.len() && piece[k] == ',';
            if k >= dots.len() {
                assert(ext[k - dots.len()] == ',');
            }
        }
    }
    let e = Seq::<char>::empty();
    crate::paths::lemma_split_tail(e, piece, ',');
    assert(e + piece =~= piece);
    assert(split_on(e, ',') =~= seq![e]);
    assert(split_on(piece, ',') =~= seq![piece]);
    let head = before + seq![','];
    assert(head.drop_last() =~= before);
    crate::text::lemma_split_nonempty(before, ',');
    crate::paths::lemma_split_tail(head, piece, ',');
    assert(split_on(before, ',').push(e).drop_last() =~= split_on(before, ','));
    assert(split_on(head + piece, ',') == split_on(before, ',').push(piece));
    assert(split_on(before, ',').push(piece).drop_last() =~= split_on(before, ','));
    assert(seq![piece].drop_last() =~= Seq::<Seq<char>>::empty());
    reveal_with_fuel(exts_in, 2);
    assert(trim(piece) == piece) by {
        if piece.len() > 0 {
            if dots.len() > 0 {
                assert(piece[0] == dots[0]);
                assert(!is_space(piece[0]));
            } else {
                assert(piece[0] == ext[0]);
            }
            if ext.len() > 0 {
                assert(piece.last() == ext.last());
            } else {
                assert(piece.last() == dots[dots.len() - 1]);
            }
        }
    }
    lemma_without_dots(dots, ext);
    assert(lower_all(ext).len() == ext.len());
    assert(exts_in(split_on(piece, ',')) =~= if ext.len() > 0 {
        seq![lower_all(ext)]
    } else {
        Seq::<Seq<char>>::empty()
    });
    assert(exts_in(split_on(head + piece, ',')) =~= exts_in(split_on(before, ',')) + (if ext.len()
        > 0 {
        seq![lower_all(ext)]
    } else {
        Seq::<Seq<char>>::empty()
    }));
}

proof fn lemma_without_dots(dots: Seq<char>, rest: Seq<char>)
    requires
        forall|k: int| 0 <= k < dots.len() ==> #[trigger] dots[k] == '.',
        rest.len() > 0 ==> rest[0] != '.',
    ensures
        without_dots(dots + rest) == rest,
    decreases dots.len(),
{
    if dots.len() == 0 {
        assert(dots + rest =~= rest);
    } else {
        assert((dots + rest)[0] == dots[0]);
        assert((dots + rest).drop_first() =~= dots.drop_first() + rest);
        assert forall|k: int| 0 <= k < dots.drop_first().len() implies #[trigger] dots.drop_first()[k]
            == '.' by {
            assert(dots.drop_first()[k] == dots[k + 1]);
        }
        lemma_without_dots(dots.drop_first(), rest);
    }
}

/// Whether no two dots in a row stand in a text.
pub open spec fn no_double_dot(s: Seq<char>) -> bool {
    forall|k: int| 0 <= k < s.len() - 1 && #[trigger] s[k] == '.' ==> s[k + 1] != '.'
}

proof fn lemma_first_dots(lo: Seq<char>, hi: Seq<char>)
    requires
        no_double_dot(lo),
        lo.len() > 0 ==> lo.last() != '.',
    ensures
        first_dots(lo + seq!['.', '.'] + hi) == Some(lo.len()),
    decreases lo.len(),
{
    let all = lo + seq!['.', '.'] + hi;
    if lo.len() == 0 {
        assert(all[0] == '.' && all[1] == '.');
    } else {
        let rest = lo.drop_first();
        assert(all.drop_first() =~= rest + seq!['.', '.'] + hi);
        assert forall|k: int| 0 <= k < rest.len() - 1 && #[trigger] rest[k] == '.' implies rest[k
            + 1] != '.' by {
            assert(lo[k + 1] == rest[k]);
        }
        if lo.len() > 1 {
            assert(all[0] == lo[0] && all[1] == lo[1]);
        } else {
            assert(all[0] == lo[0]);
        }
        lemma_first_dots(rest, hi);
    }
}

proof fn lemma_no_dots(s: Seq<char>)
    requires
        no_double_dot(s),
    ensures
        first_dots(s) is None,
    decreases s.len(),
{
    if s.len() >= 2 {
        let rest = s.drop_first();
        assert forall|k: int| 0 <= k < rest.len() - 1 && #[trigger] rest[k] == '.' implies rest[k
            + 1] != '.' by {
            assert(s[k + 1] == rest[k]);
        }
        assert(s[0] == '.' ==> s[1] != '.');
        lemma_no_dots(rest);
    }
}

/// How the bounds of a filter are written: two values with two dots between them,
/// one behind `>` or `>=`, one behind `<` or `<=`, or one alone.
pub proof fn law_bounds_are_read(lo: Seq<char>, hi: Seq<char>)
    requires
        no_double_dot(lo),
    ensures
        lo.len() == 0 || lo.last() != '.' ==> bounds_of(lo + seq!['.', '.'] + hi) == Bounds::Range(
            lo,
            hi,
        ),
        bounds_of(seq!['>', '='] + lo) == Bounds::AtLeast(lo),
        bounds_of(seq!['<', '='] + lo) == Bounds::AtMost(lo),
        lo.len() == 0 || lo[0] != '=' ==> bounds_of(seq!['>'] + lo) == Bounds::AtLeast(lo)
            && bounds_of(seq!['<'] + lo) == Bounds::AtMost(lo),
        lo.len() == 0 || (lo[0] != '<' && lo[0] != '>') ==> bounds_of(lo) == Bounds::Near(lo),
{
    if lo.len() == 0 || lo.last() != '.' {
        lemma_first_dots(lo, hi);
        let all = lo + seq!['.', '.'] + hi;
        assert(all.take(lo.len() as int) =~= lo);
        assert(all.skip(lo.len() as int + 2) =~= hi);
    }
    lemma_no_dots(lo);
    let a = seq!['>', '='] + lo;
    let b = seq!['<', '='] + lo;
    let c = seq!['>'] + lo;
    let d = seq!['<'] + lo;
    assert(no_double_dot(a)) by {
        assert forall|k: int| 0 <= k < a.len() - 1 && #[trigger] a[k] == '.' implies a[k + 1]
            != '.' by {
            assert(lo[k - 2] == '.');
        }
    }
    assert(no_double_dot(b)) by {
        assert forall|k: int| 0 <= k < b.len() - 1 && #[trigger] b[k] == '.' implies b[k + 1]
            != '.' by {
            assert(lo[k - 2] == '.');
        }
    }
    assert(no_double_dot(c)) by {
        assert forall|k: int| 0 <= k < c.len() - 1 && #[trigger] c[k] == '.' implies c[k + 1]
            != '.' by {
            assert(lo[k - 1] == '.');
        }
    }
    assert(no_double_dot(d)) by {
        assert forall|k: int| 0 <= k < d.len() - 1 && #[trigger] d[k] == '.' implies d[k + 1]
            != '.' by {
            assert(lo[k - 1] == '.');
        }
    }
    lemma_no_dots(a);
    lemma_no_dots(b);
    lemma_no_dots(c);
    lemma_no_dots(d);
    assert(a.skip(2) =~= lo);
    assert(b.skip(2) =~= lo);
    assert(c.skip(1) =~= lo);
    assert(d.skip(1) =~= lo);
    if lo.len() > 0 {
        assert(c[1] == lo[0] && d[1] == lo[0]);
    }
}

/// The search with a size filter.
#[verifier::opaque]
spec fn sized(w: SpecView, rest: Seq<char>) -> SpecView {
    with_size(w, rest)
}

/// How the bounds of a size filter come into the search.
proof fn lemma_size_bounds(w: SpecView, lo: Seq<char>, hi: Seq<char>)
    requires
        no_double_dot(lo),
    ensures
        lo.len() == 0 || lo.last() != '.' ==> sized(w, lo + seq!['.', '.'] + hi) == (SpecView {
            size_min: size_of_text(lo),
            size_max: size_of_text(hi),
            ..w
        }),
        lo.len() == 0 || lo[0] != '=' ==> sized(w, seq!['>'] + lo) == (SpecView {
            size_min: size_of_text(lo),
            ..w
        }) && sized(w, seq!['<'] + lo) == (SpecView { size_max: size_of_text(lo), ..w }),
        sized(w, seq!['>', '='] + lo) == (SpecView { size_min: size_of_text(lo), ..w }),
        sized(w, seq!['<', '='] + lo) == (SpecView { size_max: size_of_text(lo), ..w }),
{
    reveal(sized);
    law_bounds_are_read(lo, hi);
}

/// A size alone bounds the size by a tenth either way.
proof fn lemma_size_alone(w: SpecView, size: Seq<char>, v: SpecView)
    requires
        no_double_dot(size),
        size.len() == 0 || (size[0] != '<' && size[0] != '>'),
        v == sized(w, size),
    ensures
        size_of_text(size) is None ==> v == w,
        size_of_text(size) matches Some(n) ==> {
            &&& v == (SpecView { size_min: v.size_min, size_max: v.size_max, ..w })
            &&& v.size_min == Some((n - n / 10) as u64)
            &&& v.size_max matches Some(most) && (n + n / 10 <= u64::MAX ==> most == n + n / 10) && (
            n + n / 10 > u64::MAX ==> most == u64::MAX)
        },
{
    reveal(sized);
    law_bounds_are_read(size, size);
}

/// How the bounds of a date filter come into the search, and which days it names.
proof fn lemma_date_bounds(
    w: SpecView,
    lo: Seq<char>,
    hi: Seq<char>,
    first: Option<i64>,
    second: Option<i64>,
)
    requires
        no_double_dot(lo),
    ensures
        lo.len() == 0 || lo[0] != '=' ==> with_dates(w, seq!['>'] + lo, first, second) == (SpecView {
            date_min: first,
            ..w
        }) && with_dates(w, seq!['<'] + lo, first, second) == (SpecView { date_max: first, ..w }),
        with_dates(w, seq!['>', '='] + lo, first, second) == (SpecView { date_min: first, ..w }),
        with_dates(w, seq!['<', '='] + lo, first, second) == (SpecView { date_max: first, ..w }),
        lo.len() == 0 || lo[0] != '=' ==> (dates_fit(seq!['>'] + lo, first, second)
            ==> is_start_of_day(lo, first)) && (dates_fit(seq!['<'] + lo, first, second)
            ==> is_start_of_day(lo, first)),
        dates_fit(seq!['>', '='] + lo, first, second) ==> is_start_of_day(lo, first),
        dates_fit(seq!['<', '='] + lo, first, second) ==> is_start_of_day(lo, first),
{
    law_bounds_are_read(lo, hi);
}

/// The end of a range of days, and of a day alone.
proof fn lemma_date_range(
    w: SpecView,
    lo: Seq<char>,
    hi: Seq<char>,
    first: Option<i64>,
    second: Option<i64>,
    v: SpecView,
)
    requires
        no_double_dot(lo),
        lo.len() == 0 || lo.last() != '.',
        v == with_dates(w, lo + seq!['.', '.'] + hi, first, second),
        dates_fit(lo + seq!['.', '.'] + hi, first, second),
    ensures
        is_start_of_day(lo, first),
        is_start_of_day(hi, second),
        v == (SpecView { date_min: v.date_min, date_max: v.date_max, ..w }),
        v.date_min == first,
        second is None <==> v.date_max is None,
        second matches Some(start) ==> v.date_max->0 == start + 86_400,
{
    law_bounds_are_read(lo, hi);
    lemma_start_of_day_bound(hi, second);
}

proof fn lemma_date_alone(
    w: SpecView,
    day: Seq<char>,
    first: Option<i64>,
    second: Option<i64>,
    v: SpecView,
)
    requires
        no_double_dot(day),
        day.len() == 0 || (day[0] != '<' && day[0] != '>'),
        v == with_dates(w, day, first, second),
        dates_fit(day, first, second),
    ensures
        is_start_of_day(day, first),
        first is None ==> v == w,
        first matches Some(start) ==> {
            &&& v == (SpecView { date_min: v.date_min, date_max: v.date_max, ..w })
            &&& v.date_min == first
            &&& v.date_max matches Some(end) && end == start + 86_400
        },
{
    law_bounds_are_read(day, day);
    lemma_start_of_day_bound(day, first);
}

/// Whether a token is a size filter with the given text.
pub open spec fn says_size(t: Seq<char>, rest: Seq<char>) -> bool {
    says(t, "size:"@, rest) || says(t, "s:"@, rest)
}

proof fn lemma_size_word(
    a: Seq<char>,
    t: Seq<char>,
    rest: Seq<char>,
    mode: MatchMode,
    case_sensitive: bool,
    v: SpecView,
) -> (w: SpecView)
    requires
        quotes(a) % 2 == 0,
        is_word(t),
        says_size(t, rest),
        reads_as(a.push(' ') + t, mode, case_sensitive, v),
    ensures
        reads_as(a, mode, case_sensitive, w),
        v == sized(w, rest),
{
    law_filters_go_by_their_prefix(t, rest);
    reveal(with_token);
    reveal(sized);
    let (w, _, _) = lemma_last_word(a, t, mode, case_sensitive, v);
    w
}

/// A `size:` filter with a range asks for sizes from one to another: those that
/// the texts stand for.
pub proof fn law_size_range_bounds_both_ends(
    a: Seq<char>,
    t: Seq<char>,
    lo: Seq<char>,
    hi: Seq<char>,
    mode: MatchMode,
    case_sensitive: bool,
    v: SpecView,
)
    requires
        quotes(a) % 2 == 0,
        is_word(t),
        no_double_dot(lo),
        lo.len() == 0 || lo.last() != '.',
        says_size(t, lo + seq!['.', '.'] + hi),
        reads_as(a.push(' ') + t, mode, case_sensitive, v),
    ensures
        exists|w: SpecView| #[trigger]
            reads_as(a, mode, case_sensitive, w) && v == (SpecView {
                size_min: size_of_text(lo),
                size_max: size_of_text(hi),
                ..w
            }),
{
    let w = lemma_size_word(a, t, lo + seq!['.', '.'] + hi, mode, case_sensitive, v);
    lemma_size_bounds(w, lo, hi);
    assert(reads_as(a, mode, case_sensitive, w));
}

/// A `size:` filter with `>` or `>=` asks for that size at least.
pub proof fn law_size_minimum_bounds_from_below(
    a: Seq<char>,
    t: Seq<char>,
    size: Seq<char>,
    mode: MatchMode,
    case_sensitive: bool,
    v: SpecView,
)
    requires
        quotes(a) % 2 == 0,
        is_word(t),
        no_double_dot(size),
        size.len() == 0 || size[0] != '=',
        says_size(t, seq!['>'] + size) || says_size(t, seq!['>', '='] + size),
        reads_as(a.push(' ') + t, mode, case_sensitive, v),
    ensures
        exists|w: SpecView| #[trigger]
            reads_as(a, mode, case_sensitive, w) && v == (SpecView {
                size_min: size_of_text(size),
                ..w
            }),
{
    let rest = if says_size(t, seq!['>'] + size) {
        seq!['>'] + size
    } else {
        seq!['>', '='] + size
    };
    let w = lemma_size_word(a, t, rest, mode, case_sensitive, v);
    lemma_size_bounds(w, size, size);
    assert(reads_as(a, mode, case_sensitive, w));
}

/// A `size:` filter with `<` or `<=` asks for that size at most.
pub proof fn law_size_maximum_bounds_from_above(
    a: Seq<char>,
    t: Seq<char>,
    size: Seq<char>,
    mode: MatchMode,
    case_sensitive: bool,
    v: SpecView,
)
    requires
        quotes(a) % 2 == 0,
        is_word(t),
        no_double_dot(size),
        size.len() == 0 || size[0] != '=',
        says_size(t, seq!['<'] + size) || says_size(t, seq!['<', '='] + size),
        reads_as(a.push(' ') + t, mode, case_sensitive, v),
    ensures
        exists|w: SpecView| #[trigger]
            reads_as(a, mode, case_sensitive, w) && v == (SpecView {
                size_max: size_of_text(size),
                ..w
            }),
{
    let rest = if says_size(t, seq!['<'] + size) {
        seq!['<'] + size
    } else {
        seq!['<', '='] + size
    };
    let w = lemma_size_word(a, t, rest, mode, case_sensitive, v);
    lemma_size_bounds(w, size, size);
    assert(reads_as(a, mode, case_sensitive, w));
}

/// A `size:` filter with a size alone asks for sizes within a tenth of it. A text
/// that is no size says nothing.
pub proof fn law_size_alone_means_about_that_size(
    a: Seq<char>,
    t: Seq<char>,
    size: Seq<char>,
    mode: MatchMode,
    case_sensitive: bool,
    v: SpecView,
)
    requires
        quotes(a) % 2 == 0,
        is_word(t),
        no_double_dot(size),
        size.len() == 0 || (size[0] != '<' && size[0] != '>'),
        says_size(t, size),
        reads_as(a.push(' ') + t, mode, case_sensitive, v),
    ensures
        exists|w: SpecView| #[trigger]
            reads_as(a, mode, case_sensitive, w) && (size_of_text(size) is None ==> v == w) && (
            size_of_text(size) matches Some(n) ==> {
                &&& v == (SpecView { size_min: v.size_min, size_max: v.size_max, ..w })
                &&& v.size_min == Some((n - n / 10) as u64)
                &&& v.size_max matches Some(most) && (n + n / 10 <= u64::MAX ==> most == n + n / 10)
                    && (n + n / 10 > u64::MAX ==> most == u64::MAX)
            }),
{
    let w = lemma_size_word(a, t, size, mode, case_sensitive, v);
    lemma_size_alone(w, size, v);
    assert(reads_as(a, mode, case_sensitive, w));
}

/// Whether a token is a date filter with the given text.
pub open spec fn says_date(t: Seq<char>, rest: Seq<char>) -> bool {
    says(t, "date:"@, rest) || says(t, "dm:"@, rest) || says(t, "modified:"@, rest)
}

/// A date filter with a range asks for what changed from the start of the first
/// day to the end of the last, 86400 seconds after its start. Every instant of the
/// last day is in the range, and none is that comes two days after its start.
pub proof fn law_date_range_ends_with_its_last_day(
    a: Seq<char>,
    t: Seq<char>,
    lo: Seq<char>,
    hi: Seq<char>,
    mode: MatchMode,
    case_sensitive: bool,
    v: SpecView,
    x: i64,
)
    requires
        quotes(a) % 2 == 0,
        is_word(t),
        no_double_dot(lo),
        lo.len() == 0 || lo.last() != '.',
        says_date(t, lo + seq!['.', '.'] + hi),
        reads_as(a.push(' ') + t, mode, case_sensitive, v),
    ensures
        exists|w: SpecView, first: Option<i64>, second: Option<i64>|
            {
                &&& #[trigger] reads_as(a, mode, case_sensitive, w)
                &&& #[trigger] is_start_of_day(lo, first)
                &&& #[trigger] is_start_of_day(hi, second)
                &&& v == (SpecView { date_min: v.date_min, date_max: v.date_max, ..w })
                &&& v.date_min == first
                &&& second is None <==> v.date_max is None
                &&& second matches Some(start) ==> {
                    &&& v.date_max->0 == start + 86_400
                    &&& start <= x < start + 86_400 ==> x < v.date_max->0
                    &&& x >= start + 2 * 86_400 ==> x >= v.date_max->0
                }
            },
{
    let rest = lo + seq!['.', '.'] + hi;
    let (w, first, second) = lemma_date_word(a, t, rest, mode, case_sensitive, v);
    lemma_date_range(w, lo, hi, first, second, v);
    assert(reads_as(a, mode, case_sensitive, w));
    assert(is_start_of_day(lo, first) && is_start_of_day(hi, second));
}

proof fn lemma_date_word(
    a: Seq<char>,
    t: Seq<char>,
    rest: Seq<char>,
    mode: MatchMode,
    case_sensitive: bool,
    v: SpecView,
) -> (r: (SpecView, Option<i64>, Option<i64>))
    requires
        quotes(a) % 2 == 0,
        is_word(t),
        says_date(t, rest),
        reads_as(a.push(' ') + t, mode, case_sensitive, v),
    ensures
        reads_as(a, mode, case_sensitive, r.0),
        v == with_dates(r.0, rest, r.1, r.2),
        dates_fit(rest, r.1, r.2),
{
    law_filters_go_by_their_prefix(t, rest);
    reveal(with_token);
    lemma_last_word(a, t, mode, case_sensitive, v)
}

/// A date filter with `>` or `>=` asks for what changed from the start of the day
/// on.
pub proof fn law_date_minimum_bounds_from_below(
    a: Seq<char>,
    t: Seq<char>,
    day: Seq<char>,
    mode: MatchMode,
    case_sensitive: bool,
    v: SpecView,
)
    requires
        quotes(a) % 2 == 0,
        is_word(t),
        no_double_dot(day),
        day.len() == 0 || day[0] != '=',
        says_date(t, seq!['>'] + day) || says_date(t, seq!['>', '='] + day),
        reads_as(a.push(' ') + t, mode, case_sensitive, v),
    ensures
        exists|w: SpecView, first: Option<i64>| #[trigger]
            reads_as(a, mode, case_sensitive, w) && #[trigger] is_start_of_day(day, first) && v == (
            SpecView { date_min: first, ..w }),
{
    let rest = if says_date(t, seq!['>'] + day) {
        seq!['>'] + day
    } else {
        seq!['>', '='] + day
    };
    let (w, first, second) = lemma_date_word(a, t, rest, mode, case_sensitive, v);
    lemma_date_bounds(w, day, day, first, second);
    assert(reads_as(a, mode, case_sensitive, w) && is_start_of_day(day, first));
}

/// A date filter with `<` or `<=` asks for what changed before the start of the
/// day.
pub proof fn law_date_maximum_bounds_from_above(
    a: Seq<char>,
    t: Seq<char>,
    day: Seq<char>,
    mode: MatchMode,
    case_sensitive: bool,
    v: SpecView,
)
    requires
        quotes(a) % 2 == 0,
        is_word(t),
        no_double_dot(day),
        day.len() == 0 || day[0] != '=',
        says_date(t, seq!['<'] + day) || says_date(t, seq!['<', '='] + day),
        reads_as(a.push(' ') + t, mode, case_sensitive, v),
    ensures
        exists|w: SpecView, first: Option<i64>| #[trigger]
            reads_as(a, mode, case_sensitive, w) && #[trigger] is_start_of_day(day, first) && v == (
            SpecView { date_max: first, ..w }),
{
    let rest = if says_date(t, seq!['<'] + day) {
        seq!['<'] + day
    } else {
        seq!['<', '='] + day
    };
    let (w, first, second) = lemma_date_word(a, t, rest, mode, case_sensitive, v);
    lemma_date_bounds(w, day, day, first, second);
    assert(reads_as(a, mode, case_sensitive, w) && is_start_of_day(day, first));
}

/// A date filter with a day alone asks for what changed on that day: in the 86400
/// seconds from its start. A text that is no day says nothing.
pub proof fn law_date_alone_means_that_day(
    a: Seq<char>,
    t: Seq<char>,
    day: Seq<char>,
    mode: MatchMode,
    case_sensitive: bool,
    v: SpecView,
)
    requires
        quotes(a) % 2 == 0,
        is_word(t),
        no_double_dot(day),
        day.len() == 0 || (day[0] != '<' && day[0] != '>'),
        says_date(t, day),
        reads_as(a.push(' ') + t, mode, case_sensitive, v),
    ensures
        exists|w: SpecView, first: Option<i64>| #[trigger]
            reads_as(a, mode, case_sensitive, w) && #[trigger] is_start_of_day(day, first) && (
            first is None ==> v == w) && (first matches Some(start) ==> {
                &&& v == (SpecView { date_min: v.date_min, date_max: v.date_max, ..w })
                &&& v.date_min == first
                &&& v.date_max matches Some(end) && end == start + 86_400
            }),
{
    let (w, first, second) = lemma_date_word(a, t, day, mode, case_sensitive, v);
    lemma_date_alone(w, day, first, second, v);
    assert(reads_as(a, mode, case_sensitive, w) && is_start_of_day(day, first));
}

}
