//! Text primitives: ASCII case folding, white space, splitting, joining,
//! and replacing, stated over sequences of characters.

use vstd::prelude::*;
use vstd::slice::slice_subrange;
use vstd::string::*;
use vstd::utf8::*;

verus! {

/// `String::push` appends the given character to the end of the string.
pub assume_specification[ String::push ](s: &mut String, c: char)
    ensures
        final(s)@ == old(s)@.push(c),
;

// ---------------------------------------------------------------------------
// Characters
// ---------------------------------------------------------------------------

/// ASCII lower case of a character; every other character stays as it is.
pub open spec fn lower(c: char) -> char {
    if 'A' <= c <= 'Z' {
        ((c as u32) + 32) as char
    } else {
        c
    }
}

/// ASCII lower case of a text.
pub open spec fn lower_all(s: Seq<char>) -> Seq<char> {
    s.map_values(|c: char| lower(c))
}

/// The characters with the Unicode property `White_Space`.
pub open spec fn is_space(c: char) -> bool {
    ||| '\u{9}' <= c <= '\u{D}'
    ||| c == '\u{20}'
    ||| c == '\u{85}'
    ||| c == '\u{A0}'
    ||| c == '\u{1680}'
    ||| '\u{2000}' <= c <= '\u{200A}'
    ||| c == '\u{2028}'
    ||| c == '\u{2029}'
    ||| c == '\u{202F}'
    ||| c == '\u{205F}'
    ||| c == '\u{3000}'
}

pub open spec fn is_digit(c: char) -> bool {
    '0' <= c <= '9'
}

pub open spec fn is_letter(c: char) -> bool {
    'a' <= c <= 'z' || 'A' <= c <= 'Z'
}

pub fn lower_char(c: char) -> (r: char)
    ensures
        r == lower(c),
{
    if 'A' <= c && c <= 'Z' {
        ((c as u8) + 32) as char
    } else {
        c
    }
}

pub fn space_char(c: char) -> (r: bool)
    ensures
        r == is_space(c),
{
    ('\u{9}' <= c && c <= '\u{D}') || c == '\u{20}' || c == '\u{85}' || c == '\u{A0}' || c
        == '\u{1680}' || ('\u{2000}' <= c && c <= '\u{200A}') || c == '\u{2028}' || c == '\u{2029}'
        || c == '\u{202F}' || c == '\u{205F}' || c == '\u{3000}'
}

// ---------------------------------------------------------------------------
// Strings and character vectors
// ---------------------------------------------------------------------------

/// The characters of a string.
pub fn to_chars(s: &str) -> (v: Vec<char>)
    ensures
        v@ == s@,
{
    let mut v: Vec<char> = Vec::new();
    for c in it: s.chars()
        invariant
            v@ == s@.take(it.index() as int),
            it.seq() == s@,
    {
        v.push(c);
    }
    v
}

/// The string made of the given characters.
pub fn from_chars(v: &[char]) -> (s: String)
    ensures
        s@ == v@,
{
    let mut s = String::new();
    for i in 0..v.len()
        invariant
            s@ == v@.take(i as int),
    {
        s.push(v[i]);
    }
    s
}

/// Whether two strings hold the same text.
pub fn same_text(a: &str, b: &str) -> (r: bool)
    ensures
        r == (a@ == b@),
{
    let x = a.as_bytes();
    let y = b.as_bytes();
    proof {
        encode_utf8_decode_utf8(a@);
        encode_utf8_decode_utf8(b@);
    }
    if x.len() != y.len() {
        return false;
    }
    for i in 0..x.len()
        invariant
            x@ == a.spec_bytes(),
            y@ == b.spec_bytes(),
            x.len() == y.len(),
            forall|j: int| 0 <= j < i ==> x@[j] == y@[j],
    {
        if x[i] != y[i] {
            return false;
        }
    }
    assert(x@ =~= y@);
    true
}

/// ASCII lower case of a string.
pub fn lower_text(s: &str) -> (r: String)
    ensures
        r@ == lower_all(s@),
{
    let mut r = String::new();
    for c in it: s.chars()
        invariant
            r@ == lower_all(s@.take(it.index() as int)),
            it.seq() == s@,
    {
        proof {
            assert(s@.take(it.index() as int + 1) =~= s@.take(it.index() as int).push(c));
        }
        r.push(lower_char(c));
    }
    assert(s@.take(s@.len() as int) =~= s@);
    r
}

/// Lower-casing twice changes nothing more.
pub proof fn lemma_lower_idempotent(s: Seq<char>)
    ensures
        lower_all(lower_all(s)) == lower_all(s),
{
    assert(lower_all(lower_all(s)) =~= lower_all(s));
}

/// The texts of a list of string literals.
pub open spec fn texts(list: Seq<&str>) -> Seq<Seq<char>> {
    list.map_values(|s: &str| s@)
}

/// The texts of a list of strings.
pub open spec fn views(list: Seq<String>) -> Seq<Seq<char>> {
    list.map_values(|s: String| s@)
}

/// The text of an optional string.
pub open spec fn opt_text(o: Option<String>) -> Option<Seq<char>> {
    match o {
        Some(s) => Some(s@),
        None => None,
    }
}

/// The text of an optional string slice.
pub open spec fn opt_str(o: Option<&str>) -> Option<Seq<char>> {
    match o {
        Some(s) => Some(s@),
        None => None,
    }
}

/// Whether `list` holds the text `s`.
pub fn listed(list: &[&str], s: &str) -> (r: bool)
    ensures
        r == texts(list@).contains(s@),
{
    for i in 0..list.len()
        invariant
            forall|j: int| 0 <= j < i ==> texts(list@)[j] != s@,
    {
        if same_text(list[i], s) {
            assert(texts(list@)[i as int] == s@);
            return true;
        }
    }
    false
}

/// Whether `list` holds the text `s`.
pub fn listed_string(list: &[String], s: &str) -> (r: bool)
    ensures
        r == views(list@).contains(s@),
{
    for i in 0..list.len()
        invariant
            forall|j: int| 0 <= j < i ==> views(list@)[j] != s@,
    {
        if same_text(list[i].as_str(), s) {
            assert(views(list@)[i as int] == s@);
            return true;
        }
    }
    false
}

/// Owned copies of a list of string literals.
pub fn owned(list: &[&str]) -> (r: Vec<String>)
    ensures
        views(r@) == texts(list@),
{
    let mut r: Vec<String> = Vec::new();
    for i in 0..list.len()
        invariant
            views(r@) == texts(list@).take(i as int),
    {
        let ghost before = r@;
        let t = list[i].to_owned();
        r.push(t);
        assert(views(r@) =~= views(before).push(t@));
        assert(texts(list@).take(i + 1) =~= texts(list@).take(i as int).push(t@));
    }
    r
}

// ---------------------------------------------------------------------------
// White space
// ---------------------------------------------------------------------------

pub open spec fn trim_start(s: Seq<char>) -> Seq<char>
    decreases s.len(),
{
    if s.len() > 0 && is_space(s[0]) {
        trim_start(s.drop_first())
    } else {
        s
    }
}

pub open spec fn trim_end(s: Seq<char>) -> Seq<char>
    decreases s.len(),
{
    if s.len() > 0 && is_space(s.last()) {
        trim_end(s.drop_last())
    } else {
        s
    }
}

/// The text without white space at either end.
pub open spec fn trim(s: Seq<char>) -> Seq<char> {
    trim_end(trim_start(s))
}

/// Removes white space at the end.
pub fn trimmed_end<'a>(s: &'a [char]) -> (r: &'a [char])
    ensures
        r@ == trim_end(s@),
{
    let mut n: usize = s.len();
    assert(s@.take(n as int) =~= s@);
    while n > 0 && space_char(s[n - 1])
        invariant
            n <= s.len(),
            trim_end(s@.take(n as int)) == trim_end(s@),
        decreases n,
    {
        assert(s@.take(n as int).drop_last() =~= s@.take(n - 1));
        n = n - 1;
    }
    assert(s@.subrange(0, n as int) =~= s@.take(n as int));
    slice_subrange(s, 0, n)
}

/// Removes white space at the start.
pub fn trimmed_start<'a>(s: &'a [char]) -> (r: &'a [char])
    ensures
        r@ == trim_start(s@),
{
    let mut n: usize = 0;
    assert(s@.skip(0) =~= s@);
    while n < s.len() && space_char(s[n])
        invariant
            n <= s.len(),
            trim_start(s@.skip(n as int)) == trim_start(s@),
        decreases s.len() - n,
    {
        assert(s@.skip(n as int).drop_first() =~= s@.skip(n + 1));
        n = n + 1;
    }
    assert(s@.subrange(n as int, s@.len() as int) =~= s@.skip(n as int));
    slice_subrange(s, n, s.len())
}

/// Removes white space at both ends.
pub fn trimmed<'a>(s: &'a [char]) -> (r: &'a [char])
    ensures
        r@ == trim(s@),
{
    trimmed_end(trimmed_start(s))
}

// ---------------------------------------------------------------------------
// Splitting and joining
// ---------------------------------------------------------------------------

/// The pieces between the separators, empty pieces among them.
pub open spec fn split_on(s: Seq<char>, sep: char) -> Seq<Seq<char>>
    decreases s.len(),
{
    if s.len() == 0 {
        seq![Seq::<char>::empty()]
    } else {
        let before = split_on(s.drop_last(), sep);
        if s.last() == sep {
            before.push(Seq::<char>::empty())
        } else {
            before.drop_last().push(before.last().push(s.last()))
        }
    }
}

pub proof fn lemma_split_nonempty(s: Seq<char>, sep: char)
    ensures
        split_on(s, sep).len() > 0,
    decreases s.len(),
{
    if s.len() > 0 {
        lemma_split_nonempty(s.drop_last(), sep);
    }
}

/// The views of a list of character vectors.
pub open spec fn char_views(list: Seq<Vec<char>>) -> Seq<Seq<char>> {
    list.map_values(|v: Vec<char>| v@)
}

/// Splits at every occurrence of `sep`.
pub fn split(s: &[char], sep: char) -> (r: Vec<Vec<char>>)
    ensures
        char_views(r@) == split_on(s@, sep),
{
    let mut done: Vec<Vec<char>> = Vec::new();
    let mut cur: Vec<char> = Vec::new();
    for i in 0..s.len()
        invariant
            char_views(done@).push(cur@) == split_on(s@.take(i as int), sep),
    {
        proof {
            assert(s@.take(i + 1).drop_last() =~= s@.take(i as int));
            assert(char_views(done@).push(cur@).drop_last() =~= char_views(done@));
        }
        if s[i] == sep {
            let piece = cur;
            let ghost before = done@;
            done.push(piece);
            cur = Vec::new();
            assert(char_views(done@) =~= char_views(before).push(piece@));
        } else {
            cur.push(s[i]);
        }
    }
    assert(s@.take(s@.len() as int) =~= s@);
    let ghost before = done@;
    let ghost last = cur@;
    done.push(cur);
    assert(char_views(done@) =~= char_views(before).push(last));
    done
}

/// The pieces in order, with `sep` between each two.
pub open spec fn join(pieces: Seq<Seq<char>>, sep: Seq<char>) -> Seq<char>
    decreases pieces.len(),
{
    if pieces.len() == 0 {
        Seq::empty()
    } else if pieces.len() == 1 {
        pieces[0]
    } else {
        join(pieces.drop_last(), sep) + sep + pieces.last()
    }
}

/// Joins strings with a separator.
pub fn joined(list: &[String], sep: &str) -> (r: String)
    ensures
        r@ == join(views(list@), sep@),
{
    let mut r = String::new();
    for i in 0..list.len()
        invariant
            r@ == join(views(list@).take(i as int), sep@),
    {
        proof {
            let now = views(list@).take(i + 1);
            assert(now.drop_last() =~= views(list@).take(i as int));
            assert(now.last() == list@[i as int]@);
        }
        if i > 0 {
            r.append(sep);
        }
        r.append(list[i].as_str());
    }
    assert(views(list@).take(list@.len() as int) =~= views(list@));
    r
}

// ---------------------------------------------------------------------------
// Occurrences
// ---------------------------------------------------------------------------

/// `n` stands in `h` at position `i`.
pub open spec fn occurs_at<T>(h: Seq<T>, n: Seq<T>, i: int) -> bool {
    0 <= i && i + n.len() <= h.len() && h.subrange(i, i + n.len()) == n
}

/// `n` stands somewhere in `h`.
pub open spec fn occurs<T>(h: Seq<T>, n: Seq<T>) -> bool {
    exists|i: int| occurs_at(h, n, i)
}

/// Whether `n` stands in `h` at position `i`.
pub fn stands_at(h: &[char], n: &[char], i: usize) -> (r: bool)
    ensures
        r == occurs_at(h@, n@, i as int),
{
    if i > h.len() || n.len() > h.len() - i {
        return false;
    }
    for k in 0..n.len()
        invariant
            i + n.len() <= h.len(),
            forall|j: int| 0 <= j < k ==> h@[i + j] == n@[j],
    {
        if h[i + k] != n[k] {
            assert(h@.subrange(i as int, i + n.len())[k as int] != n@[k as int]);
            return false;
        }
    }
    assert(h@.subrange(i as int, i + n.len()) =~= n@);
    true
}

/// The text with every occurrence of `from` replaced, leftmost first and
/// without overlap.
pub open spec fn replace_all(s: Seq<char>, from: Seq<char>, to: Seq<char>) -> Seq<char>
    decreases s.len(),
{
    if from.len() == 0 || s.len() < from.len() {
        s
    } else if from.is_prefix_of(s) {
        to + replace_all(s.skip(from.len() as int), from, to)
    } else {
        seq![s[0]] + replace_all(s.drop_first(), from, to)
    }
}

proof fn lemma_replace_hit(s: Seq<char>, from: Seq<char>, to: Seq<char>, i: int)
    requires
        from.len() > 0,
        occurs_at(s, from, i),
    ensures
        replace_all(s.skip(i), from, to) == to + replace_all(s.skip(i + from.len()), from, to),
{
    let rest = s.skip(i);
    assert(rest.subrange(0, from.len() as int) =~= s.subrange(i, i + from.len()));
    assert(from.is_prefix_of(rest));
    assert(rest.skip(from.len() as int) =~= s.skip(i + from.len()));
}

proof fn lemma_replace_miss(s: Seq<char>, from: Seq<char>, to: Seq<char>, i: int)
    requires
        from.len() > 0,
        0 <= i < s.len(),
        !occurs_at(s, from, i),
    ensures
        replace_all(s.skip(i), from, to) == seq![s[i]] + replace_all(s.skip(i + 1), from, to),
{
    let rest = s.skip(i);
    assert(rest.drop_first() =~= s.skip(i + 1));
    if rest.len() < from.len() {
        assert(rest =~= seq![s[i]] + s.skip(i + 1));
    } else if from.is_prefix_of(rest) {
        assert(s.subrange(i, i + from.len()) =~= from);
    }
}

/// Replaces every occurrence of `from`, leftmost first and without overlap.
pub fn replaced(s: &[char], from: &[char], to: &[char]) -> (r: Vec<char>)
    requires
        from.len() > 0,
    ensures
        r@ == replace_all(s@, from@, to@),
{
    let mut r: Vec<char> = Vec::new();
    let mut i: usize = 0;
    assert(s@.skip(0) =~= s@);
    assert(r@ + replace_all(s@, from@, to@) =~= replace_all(s@, from@, to@));
    while i < s.len()
        invariant
            i <= s.len(),
            from.len() > 0,
            r@ + replace_all(s@.skip(i as int), from@, to@) == replace_all(s@, from@, to@),
        decreases s.len() - i,
    {
        let ghost before = r@;
        if stands_at(s, from, i) {
            proof {
                lemma_replace_hit(s@, from@, to@, i as int);
            }
            append_chars(&mut r, to);
            i = i + from.len();
            assert(r@ + replace_all(s@.skip(i as int), from@, to@) =~= before + (to@ + replace_all(
                s@.skip(i as int),
                from@,
                to@,
            )));
        } else {
            proof {
                lemma_replace_miss(s@, from@, to@, i as int);
            }
            r.push(s[i]);
            i = i + 1;
            assert(r@ + replace_all(s@.skip(i as int), from@, to@) =~= before + (seq![s@[i - 1]]
                + replace_all(s@.skip(i as int), from@, to@)));
        }
    }
    assert(s@.skip(i as int) =~= Seq::<char>::empty());
    assert(r@ + Seq::<char>::empty() =~= r@);
    r
}

/// Appends the characters of `more`.
pub fn append_chars(v: &mut Vec<char>, more: &[char])
    ensures
        final(v)@ == old(v)@ + more@,
{
    let ghost start = v@;
    for i in 0..more.len()
        invariant
            v@ == start + more@.take(i as int),
    {
        proof {
            assert(start + more@.take(i + 1) =~= (start + more@.take(i as int)).push(
                more@[i as int],
            ));
        }
        v.push(more[i]);
    }
    assert(more@.take(more@.len() as int) =~= more@);
}

// ---------------------------------------------------------------------------
// Laws
// ---------------------------------------------------------------------------

/// Lower case moves the letters from `A` to `Z` by 32 and leaves every other
/// character alone.
pub proof fn law_lower_case_is_of_ascii_letters(c: char)
    ensures
        65 <= c as u32 <= 90 ==> lower(c) as u32 == c as u32 + 32,
        !(65 <= c as u32 <= 90) ==> lower(c) == c,
{
}

/// What is left of a text without the white space around it is a part of the text,
/// with nothing but white space before and behind it, and none at its ends.
pub proof fn law_trimming_takes_the_white_space(s: Seq<char>)
    ensures
        exists|i: int, j: int|
            {
                &&& 0 <= i <= j <= s.len()
                &&& trim(s) == #[trigger] s.subrange(i, j)
                &&& forall|k: int| 0 <= k < i ==> is_space(#[trigger] s[k])
                &&& forall|k: int| j <= k < s.len() ==> is_space(#[trigger] s[k])
            },
        trim(s).len() > 0 ==> !is_space(trim(s)[0]) && !is_space(trim(s).last()),
{
    let i = lemma_trim_start(s);
    let t = s.skip(i);
    let n = lemma_trim_end(t);
    assert(trim(s) =~= s.subrange(i, i + n));
    assert forall|k: int| i + n <= k < s.len() implies is_space(#[trigger] s[k]) by {
        assert(t[k - i] == s[k]);
    }
}

proof fn lemma_trim_start(s: Seq<char>) -> (i: int)
    ensures
        0 <= i <= s.len(),
        trim_start(s) == s.skip(i),
        forall|k: int| 0 <= k < i ==> is_space(#[trigger] s[k]),
        i < s.len() ==> !is_space(s[i]),
    decreases s.len(),
{
    if s.len() > 0 && is_space(s[0]) {
        let n = lemma_trim_start(s.drop_first());
        assert(s.drop_first().skip(n) =~= s.skip(n + 1));
        assert forall|k: int| 0 <= k < n + 1 implies is_space(#[trigger] s[k]) by {
            if k > 0 {
                assert(s.drop_first()[k - 1] == s[k]);
            }
        }
        n + 1
    } else {
        assert(s.skip(0) =~= s);
        0
    }
}

proof fn lemma_trim_end(s: Seq<char>) -> (n: int)
    ensures
        0 <= n <= s.len(),
        trim_end(s) == s.take(n),
        forall|k: int| n <= k < s.len() ==> is_space(#[trigger] s[k]),
        n > 0 ==> !is_space(s[n - 1]),
    decreases s.len(),
{
    if s.len() > 0 && is_space(s.last()) {
        let n = lemma_trim_end(s.drop_last());
        assert(s.drop_last().take(n) =~= s.take(n));
        assert forall|k: int| n <= k < s.len() implies is_space(#[trigger] s[k]) by {
            if k < s.len() - 1 {
                assert(s.drop_last()[k] == s[k]);
            }
        }
        n
    } else {
        assert(s.take(s.len() as int) =~= s);
        s.len() as int
    }
}

/// The space, the tab and the line breaks are white space; letters, digits and
/// the characters of paths are not.
pub proof fn law_white_space_separates_words(c: char)
    ensures
        c == ' ' || c == '\t' || c == '\n' || c == '\r' || c == '\u{A0}' || c == '\u{3000}'
            ==> is_space(c),
        is_letter(c) || is_digit(c) || c == '/' || c == '.' || c == '-' || c == '_' || c == ':'
            || c == '"' ==> !is_space(c),
        33 <= c as u32 <= 126 ==> !is_space(c),
{
}

/// Splitting takes nothing away: the pieces with the separator between them are
/// the text, and no piece holds a separator.
pub proof fn law_joining_undoes_splitting(s: Seq<char>, sep: char)
    ensures
        split_on(s, sep).len() > 0,
        join(split_on(s, sep), seq![sep]) == s,
        forall|i: int| 0 <= i < split_on(s, sep).len() ==> !(#[trigger] split_on(s, sep)[i]).contains(
            sep,
        ),
    decreases s.len(),
{
    let now = split_on(s, sep);
    if s.len() > 0 {
        let front = s.drop_last();
        law_joining_undoes_splitting(front, sep);
        let before = split_on(front, sep);
        assert(front.push(s.last()) =~= s);
        if s.last() == sep {
            assert(now.drop_last() =~= before);
            assert(join(now, seq![sep]) == join(before, seq![sep]) + seq![sep] + Seq::<
                char,
            >::empty());
            assert(join(now, seq![sep]) =~= s);
        } else {
            let w = before.last();
            assert(now.drop_last() =~= before.drop_last());
            assert(now.last() == w.push(s.last()));
            if before.len() == 1 {
                assert(join(before, seq![sep]) == w);
                assert(now.len() == 1);
                assert(join(now, seq![sep]) == now[0]);
            } else {
                let head = join(before.drop_last(), seq![sep]);
                assert(join(before, seq![sep]) == head + seq![sep] + w);
                assert(join(now, seq![sep]) == head + seq![sep] + now.last());
                assert(head + seq![sep] + w.push(s.last()) =~= (head + seq![sep] + w).push(s.last()));
            }
        }
        assert forall|i: int| 0 <= i < now.len() implies !(#[trigger] now[i]).contains(sep) by {
            if i < before.len() - 1 {
                assert(now[i] == before[i]);
            } else if s.last() == sep {
                if i == before.len() - 1 {
                    assert(now[i] == before[i]);
                }
            } else {
                let w = before[before.len() - 1];
                assert(!w.contains(sep));
                if now[i].contains(sep) {
                    let k = choose|k: int| 0 <= k < now[i].len() && now[i][k] == sep;
                    if k < w.len() {
                        assert(w[k] == sep);
                    }
                }
            }
        }
    } else {
        assert(now =~= seq![Seq::<char>::empty()]);
        assert(join(now, seq![sep]) =~= s);
    }
}

}
