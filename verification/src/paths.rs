//! Paths as text. Components are separated by `/`; a platform with another
//! separator translates at its boundary.
//!
//! Two paths are the same path when they have the same components: repeated
//! separators, a trailing separator and inner `.` components carry no meaning.

use crate::text::{
    char_views, from_chars, join, joined, same_text, split, split_on, to_chars, views,
};
use vstd::prelude::*;
use vstd::string::*;

verus! {

/// Whether the piece at position `at` of a split path is a component.
pub open spec fn is_component(piece: Seq<char>, at: int) -> bool {
    piece.len() > 0 && (at == 0 || piece != seq!['.'])
}

/// The pieces of a split path that are components.
pub open spec fn keep_components(pieces: Seq<Seq<char>>) -> Seq<Seq<char>>
    decreases pieces.len(),
{
    if pieces.len() == 0 {
        Seq::empty()
    } else {
        let before = keep_components(pieces.drop_last());
        if is_component(pieces.last(), pieces.len() - 1) {
            before.push(pieces.last())
        } else {
            before
        }
    }
}

/// Whether the path starts at the root of the file system.
pub open spec fn is_rooted(p: Seq<char>) -> bool {
    p.len() > 0 && p[0] == '/'
}

/// The component that stands for the root.
pub open spec fn root_component() -> Seq<char> {
    seq!['/']
}

/// The components of a path; the root, where there is one, comes first.
pub open spec fn components_of(p: Seq<char>) -> Seq<Seq<char>> {
    let names = keep_components(split_on(p, '/'));
    if is_rooted(p) {
        seq![root_component()] + names
    } else {
        names
    }
}

/// The path with the given components, written without redundant parts.
pub open spec fn path_of(c: Seq<Seq<char>>) -> Seq<char> {
    if c.len() > 0 && c[0] == root_component() {
        seq!['/'] + join(c.drop_first(), seq!['/'])
    } else {
        join(c, seq!['/'])
    }
}

/// The canonical spelling of a path.
pub open spec fn normal(p: Seq<char>) -> Seq<char> {
    path_of(components_of(p))
}

/// The path without its last component; the root and the empty path have no
/// parent.
pub open spec fn parent_of(p: Seq<char>) -> Option<Seq<char>> {
    let c = components_of(p);
    if c.len() == 0 || c.last() == root_component() {
        None
    } else {
        Some(path_of(c.drop_last()))
    }
}

/// A component that names something, as opposed to the root, `.` and `..`.
pub open spec fn is_name(c: Seq<char>) -> bool {
    c != root_component() && c != seq!['.'] && c != seq!['.', '.']
}

/// The last component, where it is a name.
pub open spec fn file_name_of(p: Seq<char>) -> Option<Seq<char>> {
    let c = components_of(p);
    if c.len() > 0 && is_name(c.last()) {
        Some(c.last())
    } else {
        None
    }
}

/// `name` looked up below `base`; a rooted name replaces the base.
pub open spec fn joined_path(base: Seq<char>, name: Seq<char>) -> Seq<char> {
    if is_rooted(name) {
        name
    } else if base.len() > 0 && base.last() != '/' {
        base.push('/') + name
    } else {
        base + name
    }
}

/// Whether `p` is `base` or lies below it.
pub open spec fn is_under(p: Seq<char>, base: Seq<char>) -> bool {
    components_of(base).is_prefix_of(components_of(p))
}

// ---------------------------------------------------------------------------
// Canonical spelling
// ---------------------------------------------------------------------------

/// No element of `pieces` holds the separator.
pub open spec fn free_of(pieces: Seq<Seq<char>>, sep: char) -> bool {
    forall|i: int| 0 <= i < pieces.len() ==> !(#[trigger] pieces[i]).contains(sep)
}

proof fn lemma_split_free(s: Seq<char>, sep: char)
    ensures
        split_on(s, sep).len() > 0,
        free_of(split_on(s, sep), sep),
    decreases s.len(),
{
    if s.len() > 0 {
        lemma_split_free(s.drop_last(), sep);
        let before = split_on(s.drop_last(), sep);
        let now = split_on(s, sep);
        assert forall|i: int| 0 <= i < now.len() implies !(#[trigger] now[i]).contains(sep) by {
            if i < before.len() - 1 {
                assert(now[i] == before[i]);
            } else if s.last() == sep {
                if i == before.len() - 1 {
                    assert(now[i] == before[i]);
                }
            } else {
                let w = before.last();
                assert(!before[before.len() - 1].contains(sep));
                if now[i].contains(sep) {
                    let k = choose|k: int| 0 <= k < now[i].len() && now[i][k] == sep;
                    if k < w.len() {
                        assert(w[k] == sep);
                    }
                }
            }
        }
    }
}

/// Splitting a text followed by a separator-free tail extends the last piece.
pub proof fn lemma_split_tail(s: Seq<char>, tail: Seq<char>, sep: char)
    requires
        !tail.contains(sep),
    ensures
        split_on(s + tail, sep) == split_on(s, sep).drop_last().push(
            split_on(s, sep).last() + tail,
        ),
    decreases tail.len(),
{
    lemma_split_free(s, sep);
    if tail.len() == 0 {
        assert(s + tail =~= s);
        assert(split_on(s, sep).last() + tail =~= split_on(s, sep).last());
        assert(split_on(s, sep).drop_last().push(split_on(s, sep).last()) =~= split_on(s, sep));
    } else {
        let t = tail.drop_last();
        assert(tail[tail.len() - 1] == tail.last());
        assert(!t.contains(sep)) by {
            if t.contains(sep) {
                let k = choose|k: int| 0 <= k < t.len() && t[k] == sep;
                assert(tail[k] == sep);
            }
        }
        lemma_split_tail(s, t, sep);
        assert((s + tail).drop_last() =~= s + t);
        assert((s + tail).last() == tail.last());
        let first = split_on(s, sep);
        let before = split_on(s + t, sep);
        assert(before.last() == first.last() + t);
        assert(before.drop_last() =~= first.drop_last());
        assert((first.last() + t).push(tail.last()) =~= first.last() + tail);
    }
}

/// Splitting undoes joining.
pub proof fn lemma_split_join(pieces: Seq<Seq<char>>, sep: char)
    requires
        pieces.len() > 0,
        free_of(pieces, sep),
    ensures
        split_on(join(pieces, seq![sep]), sep) == pieces,
    decreases pieces.len(),
{
    let empty = Seq::<char>::empty();
    if pieces.len() == 1 {
        assert(!pieces[0].contains(sep));
        lemma_split_tail(empty, pieces[0], sep);
        assert(empty + pieces[0] =~= pieces[0]);
        assert(split_on(empty, sep).drop_last().push(split_on(empty, sep).last() + pieces[0])
            =~= pieces);
    } else {
        let front = pieces.drop_last();
        assert forall|i: int| 0 <= i < front.len() implies !(#[trigger] front[i]).contains(sep) by {
            assert(front[i] == pieces[i]);
        }
        lemma_split_join(front, sep);
        let s = join(front, seq![sep]);
        let with_sep = s + seq![sep];
        assert(with_sep.drop_last() =~= s);
        assert(split_on(with_sep, sep) == front.push(empty));
        assert(!pieces[pieces.len() - 1].contains(sep));
        lemma_split_tail(with_sep, pieces.last(), sep);
        assert(empty + pieces.last() =~= pieces.last());
        assert(front.push(empty).drop_last() =~= front);
        assert(front.push(pieces.last()) =~= pieces);
    }
}

proof fn lemma_keep_props(pieces: Seq<Seq<char>>)
    requires
        free_of(pieces, '/'),
    ensures
        free_of(keep_components(pieces), '/'),
        keep_components(pieces).len() <= pieces.len(),
        forall|i: int|
            0 <= i < keep_components(pieces).len() ==> (#[trigger] keep_components(pieces)[i]).len()
                > 0,
        forall|i: int|
            0 < i < keep_components(pieces).len() ==> (#[trigger] keep_components(pieces)[i])
                != seq!['.'],
        keep_components(pieces).len() > 0 && keep_components(pieces)[0] == seq!['.']
            ==> pieces[0] == seq!['.'],
    decreases pieces.len(),
{
    if pieces.len() > 0 {
        let front = pieces.drop_last();
        assert forall|i: int| 0 <= i < front.len() implies !(#[trigger] front[i]).contains('/') by {
            assert(front[i] == pieces[i]);
        }
        lemma_keep_props(front);
        let before = keep_components(front);
        let now = keep_components(pieces);
        assert(!pieces[pieces.len() - 1].contains('/'));
        assert forall|i: int| 0 <= i < now.len() implies !(#[trigger] now[i]).contains('/') by {
            if i < before.len() {
                assert(now[i] == before[i]);
            }
        }
        if is_component(pieces.last(), pieces.len() - 1) && before.len() > 0 {
            assert(front.len() > 0);
        }
    }
}

/// Pieces that are all components are kept unchanged.
proof fn lemma_keep_all(pieces: Seq<Seq<char>>)
    requires
        forall|i: int| 0 <= i < pieces.len() ==> is_component(#[trigger] pieces[i], i),
    ensures
        keep_components(pieces) == pieces,
    decreases pieces.len(),
{
    if pieces.len() > 0 {
        let front = pieces.drop_last();
        assert forall|i: int| 0 <= i < front.len() implies is_component(#[trigger] front[i], i) by {
            assert(front[i] == pieces[i]);
        }
        lemma_keep_all(front);
        assert(is_component(pieces[pieces.len() - 1], pieces.len() - 1));
        assert(front.push(pieces.last()) =~= pieces);
    }
}

/// An empty first piece adds no component.
proof fn lemma_keep_after_empty(pieces: Seq<Seq<char>>)
    requires
        forall|i: int|
            0 <= i < pieces.len() ==> (#[trigger] pieces[i]).len() > 0 && pieces[i] != seq!['.'],
    ensures
        keep_components(seq![Seq::<char>::empty()] + pieces) == pieces,
    decreases pieces.len(),
{
    let all = seq![Seq::<char>::empty()] + pieces;
    if pieces.len() == 0 {
        assert(all.drop_last() =~= Seq::<Seq<char>>::empty());
        assert(all.last().len() == 0);
        reveal_with_fuel(keep_components, 2);
        assert(keep_components(all) =~= pieces);
    } else {
        let front = pieces.drop_last();
        assert forall|i: int| 0 <= i < front.len() implies (#[trigger] front[i]).len() > 0
            && front[i] != seq!['.'] by {
            assert(front[i] == pieces[i]);
        }
        lemma_keep_after_empty(front);
        assert(all.drop_last() =~= seq![Seq::<char>::empty()] + front);
        assert(pieces[pieces.len() - 1].len() > 0);
        assert(front.push(pieces.last()) =~= pieces);
    }
}

proof fn lemma_first_char(s: Seq<char>)
    requires
        s.len() > 0,
    ensures
        s[0] == '/' <==> split_on(s, '/').len() > 1 && split_on(s, '/')[0].len() == 0,
        s[0] != '/' ==> split_on(s, '/')[0].len() > 0,
    decreases s.len(),
{
    lemma_split_free(s.drop_last(), '/');
    if s.len() == 1 {
        assert(s.drop_last() =~= Seq::<char>::empty());
    } else {
        lemma_first_char(s.drop_last());
        assert(s.drop_last()[0] == s[0]);
    }
}

proof fn lemma_join_first(pieces: Seq<Seq<char>>, sep: Seq<char>)
    requires
        pieces.len() > 0,
        pieces[0].len() > 0,
    ensures
        join(pieces, sep).len() > 0,
        join(pieces, sep)[0] == pieces[0][0],
    decreases pieces.len(),
{
    if pieces.len() > 1 {
        assert(pieces.drop_last()[0] == pieces[0]);
        lemma_join_first(pieces.drop_last(), sep);
    }
}

/// The canonical spelling of a path names the same components.
pub proof fn lemma_normal_components(p: Seq<char>)
    ensures
        components_of(normal(p)) == components_of(p),
{
    let pieces = split_on(p, '/');
    let names = keep_components(pieces);
    let c = components_of(p);
    let n = normal(p);
    lemma_split_free(p, '/');
    lemma_keep_props(pieces);
    if is_rooted(p) {
        assert(c[0] == root_component());
        assert(c.drop_first() =~= names);
        lemma_first_char(p);
        assert(pieces[0].len() == 0);
        assert forall|i: int| 0 <= i < names.len() implies (#[trigger] names[i]).len() > 0
            && names[i] != seq!['.'] by {
            if i == 0 && names[0] == seq!['.'] {
                assert(pieces[0] == seq!['.']);
            }
        }
        let body = join(names, seq!['/']);
        assert(n == seq!['/'] + body);
        if names.len() == 0 {
            assert(n =~= seq!['/']);
            assert(n.drop_last() =~= Seq::<char>::empty());
            let e = Seq::<char>::empty();
            reveal_with_fuel(split_on, 2);
            reveal_with_fuel(keep_components, 3);
            assert(split_on(n, '/') =~= seq![e, e]);
            assert(seq![e, e].drop_last() =~= seq![e]);
            assert(seq![e].drop_last() =~= Seq::<Seq<char>>::empty());
            assert(keep_components(seq![e]) =~= Seq::<Seq<char>>::empty());
            assert(keep_components(seq![e, e]) =~= Seq::<Seq<char>>::empty());
            assert(components_of(n) =~= c);
        } else {
            let e = Seq::<char>::empty();
            let all = seq![e] + names;
            assert forall|i: int| 0 <= i < all.len() implies !(#[trigger] all[i]).contains('/') by {
                if i > 0 {
                    assert(all[i] == names[i - 1]);
                }
            }
            lemma_join_cons(e, names, seq!['/']);
            assert(join(all, seq!['/']) =~= n);
            lemma_split_join(all, '/');
            lemma_keep_after_empty(names);
            assert(components_of(n) =~= c);
        }
    } else {
        assert(c == names);
        if c.len() > 0 {
            assert(c[0].len() > 0);
            if c[0] == root_component() {
                assert(c[0][0] == '/');
                assert(c[0].contains('/'));
            }
            assert(n == join(names, seq!['/']));
            lemma_split_join(names, '/');
            assert forall|i: int| 0 <= i < names.len() implies is_component(
                #[trigger] names[i],
                i,
            ) by {}
            lemma_keep_all(names);
            lemma_join_first(names, seq!['/']);
            if n[0] == '/' {
                assert(names[0].contains('/'));
            }
        } else {
            assert(n =~= Seq::<char>::empty());
            let e = Seq::<char>::empty();
            assert(split_on(n, '/') == seq![e]);
            reveal_with_fuel(keep_components, 2);
            assert(seq![e].drop_last() =~= Seq::<Seq<char>>::empty());
            assert(keep_components(seq![e]) =~= Seq::<Seq<char>>::empty());
        }
    }
}

/// Joining with one more piece in front.
pub proof fn lemma_join_cons(first: Seq<char>, rest: Seq<Seq<char>>, sep: Seq<char>)
    requires
        rest.len() > 0,
    ensures
        join(seq![first] + rest, sep) == first + sep + join(rest, sep),
    decreases rest.len(),
{
    let all = seq![first] + rest;
    if rest.len() == 1 {
        assert(all.drop_last() =~= seq![first]);
        assert(all.last() == rest[0]);
        assert(join(seq![first], sep) == first);
    } else {
        lemma_join_cons(first, rest.drop_last(), sep);
        assert(all.drop_last() =~= seq![first] + rest.drop_last());
        assert(all.last() == rest.last());
        assert(first + sep + join(rest.drop_last(), sep) + sep + rest.last() =~= first + sep + (join(
            rest.drop_last(),
            sep,
        ) + sep + rest.last()));
    }
}

/// Two paths have one canonical spelling exactly when they have the same
/// components.
pub proof fn law_same_path_same_spelling(p: Seq<char>, q: Seq<char>)
    ensures
        normal(p) == normal(q) <==> components_of(p) == components_of(q),
        normal(normal(p)) == normal(p),
{
    lemma_normal_components(p);
    lemma_normal_components(q);
}

// ---------------------------------------------------------------------------
// Operations
// ---------------------------------------------------------------------------

/// The components of a path.
pub fn components(p: &str) -> (r: Vec<String>)
    ensures
        views(r@) == components_of(p@),
{
    let chars = to_chars(p);
    let pieces = split(chars.as_slice(), '/');
    let mut names: Vec<String> = Vec::new();
    let rooted = chars.len() > 0 && chars[0] == '/';
    let ghost lead: Seq<Seq<char>> = if rooted {
        seq![root_component()]
    } else {
        Seq::empty()
    };
    if rooted {
        let mut root = String::new();
        root.push('/');
        assert(root@ =~= root_component());
        names.push(root);
    }
    assert(views(names@) =~= lead);
    let ghost all = char_views(pieces@);
    assert(lead + keep_components(all.take(0)) =~= lead);
    for i in 0..pieces.len()
        invariant
            all == char_views(pieces@),
            views(names@) == lead + keep_components(all.take(i as int)),
    {
        proof {
            assert(all.take(i + 1).drop_last() =~= all.take(i as int));
            assert(all.take(i + 1).last() == pieces@[i as int]@);
        }
        let piece = pieces[i].as_slice();
        let is_dot = piece.len() == 1 && piece[0] == '.';
        assert(is_dot <==> piece@ =~= seq!['.']);
        if piece.len() > 0 && (i == 0 || !is_dot) {
            let ghost before = names@;
            let name = from_chars(piece);
            names.push(name);
            assert(views(names@) =~= views(before).push(name@));
            assert((lead + keep_components(all.take(i as int))).push(name@) =~= lead
                + keep_components(all.take(i as int)).push(name@));
        }
    }
    assert(all.take(all.len() as int) =~= all);
    assert(Seq::<Seq<char>>::empty() + keep_components(all) =~= keep_components(all));
    names
}

/// The path with the given components.
fn path_from(c: &[String]) -> (r: String)
    ensures
        r@ == path_of(views(c@)),
{
    proof {
        reveal_strlit("/");
        assert("/"@ =~= seq!['/']);
    }
    if c.len() > 0 && same_text(c[0].as_str(), "/") {
        let mut r = String::new();
        r.push('/');
        assert(r@ =~= seq!['/']);
        let rest = vstd::slice::slice_subrange(c, 1, c.len());
        assert(views(rest@) =~= views(c@).drop_first());
        let tail = joined(rest, "/");
        r.append(tail.as_str());
        r
    } else {
        joined(c, "/")
    }
}

/// The canonical spelling of a path.
pub fn normal_path(p: &str) -> (r: String)
    ensures
        r@ == normal(p@),
{
    let c = components(p);
    path_from(c.as_slice())
}

/// The path without its last component.
pub fn parent_path(p: &str) -> (r: Option<String>)
    ensures
        crate::text::opt_text(r) == parent_of(p@),
{
    let c = components(p);
    proof {
        reveal_strlit("/");
        assert("/"@ =~= root_component());
    }
    if c.len() == 0 || same_text(c[c.len() - 1].as_str(), "/") {
        None
    } else {
        let front = vstd::slice::slice_subrange(c.as_slice(), 0, c.len() - 1);
        assert(views(front@) =~= views(c@).drop_last());
        Some(path_from(front))
    }
}

/// Whether a component is a name.
pub fn is_name_component(c: &str) -> (r: bool)
    ensures
        r == is_name(c@),
{
    proof {
        reveal_strlit("/");
        reveal_strlit(".");
        reveal_strlit("..");
        assert("/"@ =~= root_component());
        assert("."@ =~= seq!['.']);
        assert(".."@ =~= seq!['.', '.']);
    }
    !same_text(c, "/") && !same_text(c, ".") && !same_text(c, "..")
}

/// The last component, where it is a name.
pub fn file_name(p: &str) -> (r: Option<String>)
    ensures
        crate::text::opt_text(r) == file_name_of(p@),
{
    let mut c = components(p);
    if c.len() > 0 && is_name_component(c[c.len() - 1].as_str()) {
        assert(views(c@).last() == c@.last()@);
        c.pop()
    } else {
        None
    }
}

/// Extends `base` to the path of `name` below it.
pub fn push_path(base: &mut String, name: &str)
    ensures
        final(base)@ == joined_path(old(base)@, name@),
{
    let n: usize = name.unicode_len();
    if n > 0 && name.get_char(0) == '/' {
        *base = name.to_owned();
        return ;
    }
    let b: usize = base.as_str().unicode_len();
    if b > 0 && base.as_str().get_char(b - 1) != '/' {
        base.push('/');
    }
    base.append(name);
}

/// `name` looked up below `base`.
pub fn join_path(base: &str, name: &str) -> (r: String)
    ensures
        r@ == joined_path(base@, name@),
{
    let mut r = base.to_owned();
    push_path(&mut r, name);
    r
}

/// Whether `p` is `base` or lies below it.
pub fn starts_with(p: &str, base: &str) -> (r: bool)
    ensures
        r == is_under(p@, base@),
{
    let c = components(p);
    let b = components(base);
    if b.len() > c.len() {
        return false;
    }
    for i in 0..b.len()
        invariant
            views(c@) == components_of(p@),
            views(b@) == components_of(base@),
            b.len() <= c.len(),
            forall|j: int| 0 <= j < i ==> views(c@)[j] == views(b@)[j],
    {
        if !same_text(c[i].as_str(), b[i].as_str()) {
            assert(views(c@)[i as int] != views(b@)[i as int]);
            assert(components_of(p@).subrange(0, components_of(base@).len() as int)[i as int]
                != components_of(base@)[i as int]);
            return false;
        }
    }
    assert(components_of(base@) =~= components_of(p@).subrange(0, components_of(base@).len() as int));
    true
}

// ---------------------------------------------------------------------------
// The folder of a path, as it is spelled
// ---------------------------------------------------------------------------

/// Whether the first `n` characters of a path spell the folder that it lies in.
pub open spec fn spells_folder(p: Seq<char>, n: int) -> bool {
    components_of(p.take(n)) == components_of(p).drop_last()
}

/// Whether `r` is the folder of a path in the path's own spelling: as much of it
/// as spells the folder, and nothing behind that.
pub open spec fn is_folder_text(p: Seq<char>, r: Seq<char>) -> bool {
    &&& r.is_prefix_of(p)
    &&& spells_folder(p, r.len() as int)
    &&& forall|k: int| 0 <= k < r.len() ==> !#[trigger] spells_folder(p, k)
}

/// A prefix of a path spells its folder, where it has one.
proof fn lemma_folder_spelled(p: Seq<char>) -> (n: int)
    requires
        parent_of(p) is Some,
    ensures
        0 <= n < p.len(),
        spells_folder(p, n),
    decreases p.len(),
{
    let q = p.drop_last();
    let all = split_on(p, '/');
    let s = split_on(q, '/');
    if p.len() == 0 {
        assert(all =~= seq![Seq::<char>::empty()]);
        assert(keep_components(all.drop_last()) =~= Seq::<Seq<char>>::empty());
        assert(components_of(p).len() == 0);
        return 0;
    }
    lemma_split_free(q, '/');
    assert(p.take(p.len() - 1) =~= q);
    let w = s.last();
    let k = s.len() - 1;
    let root = if is_rooted(p) {
        seq![root_component()]
    } else {
        Seq::empty()
    };
    let names = keep_components(s.drop_last());
    assert(components_of(p) =~= root + keep_components(all));
    if q.len() == 0 {
        assert(s =~= seq![Seq::<char>::empty()]);
        assert(names =~= Seq::<Seq<char>>::empty());
        assert(components_of(q) =~= Seq::<Seq<char>>::empty());
        if p.last() == '/' {
            assert(all.drop_last() =~= s);
            assert(components_of(p) =~= seq![root_component()]);
            return 0;
        }
        assert(all.drop_last() =~= s.drop_last());
        assert(components_of(p) =~= seq![all.last()]);
        assert(components_of(p).drop_last() =~= components_of(q));
        return 0;
    }
    assert(is_rooted(q) == is_rooted(p));
    assert(components_of(q) =~= root + keep_components(s));
    if p.last() == '/' {
        assert(all.drop_last() =~= s);
        assert(components_of(p) =~= components_of(q));
        let n = lemma_folder_spelled(q);
        assert(p.take(n) =~= q.take(n));
        return n;
    }
    assert(all.drop_last() =~= s.drop_last());
    assert(all.last() == w.push(p.last()));
    if !is_component(all.last(), k) {
        assert(w.len() == 0);
        assert(components_of(p) =~= components_of(q));
        let n = lemma_folder_spelled(q);
        assert(p.take(n) =~= q.take(n));
        return n;
    }
    assert(keep_components(all) == names.push(all.last()));
    assert(components_of(p).drop_last() =~= root + names);
    if is_component(w, k) {
        assert(keep_components(s) == names.push(w));
        assert(components_of(q).last() == w);
        assert(components_of(q).drop_last() =~= root + names);
        assert(w != root_component()) by {
            assert(!s[k].contains('/'));
            if w == root_component() {
                assert(w[0] == '/');
            }
        }
        let n = lemma_folder_spelled(q);
        assert(p.take(n) =~= q.take(n));
        return n;
    }
    assert(keep_components(s) == names);
    p.len() - 1
}

/// Whether two lists hold the same texts.
pub fn same_list(a: &[String], b: &[String]) -> (r: bool)
    ensures
        r == (views(a@) == views(b@)),
{
    if a.len() != b.len() {
        assert(views(a@).len() != views(b@).len());
        return false;
    }
    for i in 0..a.len()
        invariant
            a.len() == b.len(),
            forall|j: int| 0 <= j < i ==> views(a@)[j] == views(b@)[j],
    {
        if !same_text(a[i].as_str(), b[i].as_str()) {
            assert(views(a@)[i as int] != views(b@)[i as int]);
            return false;
        }
    }
    assert(views(a@) =~= views(b@));
    true
}

/// The folder of a path in the path's own spelling; empty where it has none.
pub fn folder_of(p: &str) -> (r: String)
    ensures
        (match parent_of(p@) {
            Some(_) => is_folder_text(p@, r@),
            None => r@.len() == 0,
        }),
{
    let c = components(p);
    proof {
        reveal_strlit("/");
        assert("/"@ =~= root_component());
    }
    if c.len() == 0 || same_text(c[c.len() - 1].as_str(), "/") {
        return String::new();
    }
    let front = vstd::slice::slice_subrange(c.as_slice(), 0, c.len() - 1);
    assert(views(front@) =~= components_of(p@).drop_last());
    let ghost at = lemma_folder_spelled(p@);
    let mut r = String::new();
    for x in it: p.chars()
        invariant
            it.seq() == p@,
            r@ == p@.take(it.index() as int),
            parent_of(p@) is Some,
            views(front@) == components_of(p@).drop_last(),
            forall|k: int| 0 <= k < it.index() ==> !#[trigger] spells_folder(p@, k),
    {
        let ghost n = it.index() as int;
        let found = components(r.as_str());
        if same_list(found.as_slice(), front) {
            assert(spells_folder(p@, n));
            return r;
        }
        assert(p@.take(n + 1) =~= p@.take(n).push(x));
        r.push(x);
    }
    assert(spells_folder(p@, at));
    r
}

// ---------------------------------------------------------------------------
// Components of joined paths and of parents
// ---------------------------------------------------------------------------

/// A name that is one component wherever it is appended.
pub open spec fn is_plain_name(n: Seq<char>) -> bool {
    n.len() > 0 && n != seq!['.'] && !n.contains('/')
}

/// Joining a name to a path appends it to the components.
pub proof fn lemma_join_components(a: Seq<char>, n: Seq<char>)
    requires
        is_plain_name(n),
    ensures
        components_of(joined_path(a, n)) == components_of(a).push(n),
{
    let p = joined_path(a, n);
    let s = split_on(a, '/');
    lemma_split_free(a, '/');
    if is_rooted(n) {
        assert(n.contains('/'));
    }
    if a.len() > 0 && a.last() != '/' {
        let b = a.push('/');
        assert(b.drop_last() =~= a);
        assert(split_on(b, '/') == s.push(Seq::<char>::empty()));
        lemma_split_tail(b, n, '/');
        assert(Seq::<char>::empty() + n =~= n);
        assert(split_on(b, '/').drop_last() =~= s);
        let all = split_on(p, '/');
        assert(all == s.push(n));
        assert(all.drop_last() =~= s);
        assert(keep_components(all) == keep_components(s).push(n));
        assert(p[0] == a[0]);
        assert(components_of(p) =~= components_of(a).push(n));
    } else {
        lemma_split_tail(a, n, '/');
        let all = split_on(p, '/');
        assert(s.last() == Seq::<char>::empty());
        assert(Seq::<char>::empty() + n =~= n);
        assert(all == s.drop_last().push(n));
        assert(all.drop_last() =~= s.drop_last());
        if a.len() == 0 {
            assert(s =~= seq![Seq::<char>::empty()]);
            assert(p =~= n);
            assert(s.drop_last() =~= Seq::<Seq<char>>::empty());
        } else {
            lemma_split_free(a.drop_last(), '/');
            assert(p[0] == a[0]);
        }
        assert(keep_components(all) == keep_components(s.drop_last()).push(n));
        assert(keep_components(s) == keep_components(s.drop_last()));
        assert(components_of(p) =~= components_of(a).push(n));
    }
}

/// The parent of a path has all of its components but the last.
pub proof fn lemma_parent_components(p: Seq<char>)
    requires
        parent_of(p) is Some,
    ensures
        components_of(parent_of(p)->0) == components_of(p).drop_last(),
{
    let n = lemma_folder_spelled(p);
    lemma_normal_components(p.take(n));
}

/// The name of a path is a plain name.
pub proof fn lemma_file_name_plain(p: Seq<char>)
    requires
        file_name_of(p) is Some,
    ensures
        is_plain_name(file_name_of(p)->0),
{
    let pieces = split_on(p, '/');
    let names = keep_components(pieces);
    let c = components_of(p);
    lemma_split_free(p, '/');
    lemma_keep_props(pieces);
    if names.len() == 0 {
        assert(c =~= seq![root_component()]);
    } else {
        assert(c.last() == names[names.len() - 1]);
    }
}

// ---------------------------------------------------------------------------
// Backslashes
// ---------------------------------------------------------------------------

/// A slash for a backslash, and the other way round.
pub open spec fn turned_slash(c: char) -> char {
    if c == '/' {
        '\\'
    } else if c == '\\' {
        '/'
    } else {
        c
    }
}

/// A text with slashes and backslashes exchanged: what a path with `/` is called
/// on a platform that separates components with a backslash, and back.
pub open spec fn respelled(s: Seq<char>) -> Seq<char> {
    s.map_values(|c: char| turned_slash(c))
}

/// Exchanges slashes and backslashes.
pub fn respell(s: &str) -> (r: String)
    ensures
        r@ == respelled(s@),
{
    let mut r = String::new();
    for c in it: s.chars()
        invariant
            it.seq() == s@,
            r@ == respelled(s@.take(it.index() as int)),
    {
        let ghost n = it.index() as int;
        assert(s@.take(n + 1) =~= s@.take(n).push(c));
        assert(respelled(s@.take(n).push(c)) =~= respelled(s@.take(n)).push(turned_slash(c)));
        r.push(
            if c == '/' {
                '\\'
            } else if c == '\\' {
                '/'
            } else {
                c
            },
        );
    }
    assert(s@.take(s@.len() as int) =~= s@);
    r
}

/// Exchanging them twice changes nothing.
pub proof fn law_respelling_undoes_itself(s: Seq<char>)
    ensures
        respelled(respelled(s)) == s,
{
    assert(respelled(respelled(s)) =~= s);
}

/// A name in a folder lies at the folder's path, a slash and the name. That path
/// has the folder for its parent and the name for its name.
pub proof fn law_folder_and_name_of_a_path(folder: Seq<char>, name: Seq<char>)
    requires
        is_plain_name(name),
        name != seq!['.', '.'],
    ensures
        ({
            let path = joined_path(folder, name);
            &&& folder.len() > 0 && folder.last() != '/' ==> path == folder + seq!['/'] + name
            &&& folder.len() == 0 || folder.last() == '/' ==> path == folder + name
            &&& file_name_of(path) == Some(name)
            &&& parent_of(path) matches Some(f) && normal(f) == normal(folder)
        }),
{
    if is_rooted(name) {
        assert(name[0] == '/');
    }
    assert(folder.push('/') =~= folder + seq!['/']);
    lemma_join_components(folder, name);
    let path = joined_path(folder, name);
    if name == root_component() {
        assert(name[0] == '/');
    }
    lemma_parent_components(path);
    assert(components_of(path).drop_last() =~= components_of(folder));
    law_same_path_same_spelling(parent_of(path)->0, folder);
}

/// What lies below a path: the path itself, and whatever is in a folder that
/// does. Two things in one folder lie below each other only if they have the same
/// name, also where one name begins with the other.
pub proof fn law_names_in_a_folder_lie_below_it(
    base: Seq<char>,
    folder: Seq<char>,
    a: Seq<char>,
    b: Seq<char>,
)
    requires
        is_plain_name(a),
        is_plain_name(b),
    ensures
        is_under(base, base),
        is_under(folder, base) ==> is_under(joined_path(folder, a), base),
        !is_under(folder, joined_path(folder, a)),
        is_under(joined_path(folder, a), joined_path(folder, b)) ==> a == b,
{
    lemma_join_components(folder, a);
    lemma_join_components(folder, b);
    let f = components_of(folder);
    let c = components_of(base);
    assert(c =~= c.subrange(0, c.len() as int));
    if is_under(folder, base) {
        assert(c == f.subrange(0, c.len() as int));
        assert(c =~= f.push(a).subrange(0, c.len() as int));
    }
    if is_under(joined_path(folder, a), joined_path(folder, b)) {
        assert(f.push(b) == f.push(a).subrange(0, f.len() as int + 1));
        assert(f.push(b)[f.len() as int] == f.push(a)[f.len() as int]);
    }
}

/// Spellings of one path: a slash at the end, a doubled slash and a dot between
/// slashes do not count. The empty path and the root have nothing above them.
pub proof fn law_redundant_parts_do_not_count(p: Seq<char>, n: Seq<char>)
    requires
        p.len() > 0,
        is_plain_name(n),
    ensures
        normal(p + seq!['/']) == normal(p),
        normal(p + seq!['/', '/'] + n) == normal(p + seq!['/'] + n),
        normal(p + seq!['/', '.', '/'] + n) == normal(p + seq!['/'] + n),
        parent_of(Seq::<char>::empty()) is None,
        parent_of(seq!['/']) is None,
{
    let e = Seq::<char>::empty();
    let s = split_on(p, '/');
    lemma_split_free(p, '/');
    let p1 = p + seq!['/'];
    assert(p1.drop_last() =~= p);
    assert(split_on(p1, '/') == s.push(e));
    assert(s.push(e).drop_last() =~= s);
    assert(p1[0] == p[0]);
    assert(components_of(p1) =~= components_of(p));
    law_same_path_same_spelling(p1, p);
    let p2 = p + seq!['/', '/'];
    assert(p2.drop_last() =~= p1);
    assert(split_on(p2, '/') == s.push(e).push(e));
    assert(s.push(e).push(e).drop_last() =~= s.push(e));
    assert(p2[0] == p[0]);
    assert(components_of(p2) =~= components_of(p));
    let dot = seq!['.'];
    let pd = p1 + dot;
    assert(!dot.contains('/')) by {
        assert(dot.len() == 1 && dot[0] == '.');
    }
    lemma_split_tail(p1, dot, '/');
    assert(e + dot =~= dot);
    assert(s.push(e).drop_last().push(dot) =~= s.push(dot));
    assert(split_on(pd, '/') == s.push(dot));
    let p3 = p + seq!['/', '.', '/'];
    assert(p3.drop_last() =~= pd);
    assert(split_on(p3, '/') == s.push(dot).push(e));
    assert(s.push(dot).push(e).drop_last() =~= s.push(dot));
    assert(s.push(dot).drop_last() =~= s);
    assert(!is_component(dot, s.len() as int));
    assert(keep_components(s.push(dot)) == keep_components(s));
    assert(keep_components(s.push(dot).push(e)) == keep_components(s));
    assert(p3[0] == p[0]);
    assert(components_of(p3) =~= components_of(p));
    assert(!is_rooted(n)) by {
        if is_rooted(n) {
            assert(n[0] == '/');
        }
    }
    lemma_join_components(p1, n);
    lemma_join_components(p2, n);
    lemma_join_components(p3, n);
    assert(joined_path(p1, n) == p1 + n);
    assert(joined_path(p2, n) == p2 + n);
    assert(joined_path(p3, n) == p3 + n);
    law_same_path_same_spelling(p2 + n, p1 + n);
    law_same_path_same_spelling(p3 + n, p1 + n);
    reveal_with_fuel(split_on, 2);
    reveal_with_fuel(keep_components, 3);
    assert(seq![e].drop_last() =~= Seq::<Seq<char>>::empty());
    assert(components_of(e).len() == 0);
    let r = seq!['/'];
    assert(r.drop_last() =~= e);
    assert(split_on(r, '/') =~= seq![e, e]);
    assert(seq![e, e].drop_last() =~= seq![e]);
    assert(keep_components(seq![e, e]).len() == 0);
    assert(components_of(r).last() == root_component());
}

}
