//! The list of results: which answer it shows, how it is sorted, and which row
//! is selected.

use crate::paths::{respell, respelled};
use crate::search::{hit_views, Hit, HitView};
use crate::util::bytes;
use vstd::prelude::*;
use vstd::string::*;
use vstd::utf8::*;

verus! {

// ---------------------------------------------------------------------------
// Order
// ---------------------------------------------------------------------------

#[derive(Clone, Copy, Debug, PartialEq, Eq, Structural)]
pub enum SortKey {
    Relevance,
    Name,
    Path,
    /// By path, as it is spelled with backslashes.
    BackslashPath,
    Size,
    Modified,
}

/// The text that `str::to_lowercase` makes of a text.
pub uninterp spec fn lowercase(s: Seq<char>) -> Seq<char>;

/// `str::to_lowercase` gives the lower case of a text by the rules of Unicode.
/// Those rules are not restated here.
#[verifier::external_body]
fn to_lowercase(s: &str) -> (r: String)
    ensures
        r@ == lowercase(s@),
{
    s.to_lowercase()
}

/// The order of texts: by their bytes, a text before what continues it.
pub open spec fn text_before(a: Seq<u8>, b: Seq<u8>) -> bool
    decreases a.len(),
{
    b.len() > 0 && (a.len() == 0 || a[0] < b[0] || (a[0] == b[0] && text_before(
        a.drop_first(),
        b.drop_first(),
    )))
}

/// Whether one hit comes before another by a sort key: the better, larger or
/// newer first, names and paths in alphabetical order.
pub open spec fn precedes(key: SortKey, a: HitView, b: HitView) -> bool {
    match key {
        SortKey::Relevance => a.score > b.score,
        SortKey::Name => text_before(bytes(lowercase(a.name)), bytes(lowercase(b.name))),
        SortKey::Path => text_before(bytes(a.path), bytes(b.path)),
        SortKey::BackslashPath => text_before(
            bytes(respelled(a.path)),
            bytes(respelled(b.path)),
        ),
        SortKey::Size => a.size > b.size,
        SortKey::Modified => a.modified > b.modified,
    }
}

/// Whether row `i` comes before row `j`; rows that the key does not tell apart
/// stay as they are.
pub open spec fn row_before(key: SortKey, hits: Seq<HitView>, i: int, j: int) -> bool {
    precedes(key, hits[i], hits[j]) || (!precedes(key, hits[j], hits[i]) && i < j)
}

/// Whether `p` lists the rows from `lo` to `hi` in order.
pub open spec fn is_order(
    key: SortKey,
    hits: Seq<HitView>,
    p: Seq<usize>,
    lo: int,
    hi: int,
) -> bool {
    &&& p.len() == hi - lo
    &&& forall|a: int| 0 <= a < p.len() ==> lo <= (#[trigger] p[a]) < hi
    &&& forall|i: int| lo <= i < hi ==> #[trigger] p.contains(i as usize)
    &&& forall|a: int, b: int|
        0 <= a < b < p.len() ==> row_before(key, hits, (#[trigger] p[a]) as int, (
        #[trigger] p[b]) as int)
}

/// Whether a list is shown against the order of its key: names and paths when
/// descending, the others when ascending.
pub open spec fn turned(key: SortKey, descending: bool) -> bool {
    match key {
        SortKey::Name | SortKey::Path | SortKey::BackslashPath => descending,
        _ => !descending,
    }
}

/// The rows in the given order, turned round if asked.
pub open spec fn arranged(hits: Seq<HitView>, p: Seq<usize>, turn: bool) -> Seq<HitView> {
    Seq::new(
        p.len(),
        |k: int|
            hits[if turn {
                p[p.len() - 1 - k]
            } else {
                p[k]
            } as int],
    )
}

/// Whether a list is another one sorted.
pub open spec fn is_sorted(
    sorted: Seq<HitView>,
    hits: Seq<HitView>,
    key: SortKey,
    descending: bool,
) -> bool {
    exists|p: Seq<usize>| #[trigger]
        is_order(key, hits, p, 0, hits.len() as int) && sorted == arranged(
            hits,
            p,
            turned(key, descending),
        )
}

proof fn lemma_text_order(a: Seq<u8>, b: Seq<u8>, c: Seq<u8>)
    ensures
        !text_before(a, a),
        text_before(a, b) ==> !text_before(b, a),
        text_before(a, b) && text_before(b, c) ==> text_before(a, c),
        !text_before(a, b) && !text_before(b, c) ==> !text_before(a, c),
    decreases a.len(),
{
    if a.len() > 0 {
        let (a1, b1, c1) = (a.drop_first(), b.drop_first(), c.drop_first());
        if b.len() > 0 && c.len() > 0 {
            lemma_text_order(a1, b1, c1);
        } else if b.len() > 0 {
            lemma_text_order(a1, b1, b1);
        } else {
            lemma_text_order(a1, a1, a1);
        }
    }
}

proof fn lemma_precedes(key: SortKey, a: HitView, b: HitView, c: HitView)
    ensures
        !precedes(key, a, a),
        precedes(key, a, b) ==> !precedes(key, b, a),
        precedes(key, a, b) && precedes(key, b, c) ==> precedes(key, a, c),
        !precedes(key, a, b) && !precedes(key, b, c) ==> !precedes(key, a, c),
{
    match key {
        SortKey::Name => lemma_text_order(
            bytes(lowercase(a.name)),
            bytes(lowercase(b.name)),
            bytes(lowercase(c.name)),
        ),
        SortKey::Path => lemma_text_order(bytes(a.path), bytes(b.path), bytes(c.path)),
        SortKey::BackslashPath => lemma_text_order(
            bytes(respelled(a.path)),
            bytes(respelled(b.path)),
            bytes(respelled(c.path)),
        ),
        _ => {},
    }
}

proof fn lemma_row_before(key: SortKey, hits: Seq<HitView>, i: int, j: int, k: int)
    ensures
        !row_before(key, hits, i, i),
        i != j ==> row_before(key, hits, i, j) || row_before(key, hits, j, i),
        row_before(key, hits, i, j) ==> !row_before(key, hits, j, i),
        row_before(key, hits, i, j) && row_before(key, hits, j, k) ==> row_before(key, hits, i, k),
{
    lemma_precedes(key, hits[i], hits[j], hits[k]);
    lemma_precedes(key, hits[k], hits[j], hits[i]);
    lemma_precedes(key, hits[j], hits[i], hits[k]);
    lemma_precedes(key, hits[i], hits[k], hits[j]);
    lemma_precedes(key, hits[j], hits[k], hits[i]);
    lemma_precedes(key, hits[k], hits[i], hits[j]);
}

/// Whether one text comes before another.
fn bytes_before(a: &[u8], b: &[u8]) -> (r: bool)
    ensures
        r == text_before(a@, b@),
{
    let n: usize = if a.len() < b.len() {
        a.len()
    } else {
        b.len()
    };
    let mut i: usize = 0;
    assert(a@.skip(0) =~= a@);
    assert(b@.skip(0) =~= b@);
    while i < n
        invariant
            i <= n,
            n <= a@.len(),
            n <= b@.len(),
            text_before(a@, b@) == text_before(a@.skip(i as int), b@.skip(i as int)),
        decreases n - i,
    {
        assert(a@.skip(i as int).drop_first() =~= a@.skip(i + 1));
        assert(b@.skip(i as int).drop_first() =~= b@.skip(i + 1));
        if a[i] < b[i] {
            return true;
        }
        if b[i] < a[i] {
            return false;
        }
        i = i + 1;
    }
    a.len() < b.len()
}

/// The text that sorting goes by where it is none of the hit's own: the name in
/// lower case, or the path with backslashes.
spec fn sort_text(key: SortKey, h: HitView) -> Seq<char> {
    if key == SortKey::Name {
        lowercase(h.name)
    } else {
        respelled(h.path)
    }
}

/// Hits with the texts that sorting goes by where they are not the hits' own.
struct Sortable<'a> {
    key: SortKey,
    hits: &'a [Hit],
    texts: Vec<String>,
}

impl<'a> Sortable<'a> {
    spec fn wf(self) -> bool {
        self.key == SortKey::Name || self.key == SortKey::BackslashPath ==> self.texts@.len()
            == self.hits@.len() && forall|i: int|
            0 <= i < self.hits@.len() ==> (#[trigger] self.texts@[i])@ == sort_text(
                self.key,
                self.hits@[i]@,
            )
    }

    fn new(key: SortKey, hits: &'a [Hit]) -> (r: Sortable<'a>)
        ensures
            r.wf(),
            r.key == key,
            r.hits@ == hits@,
    {
        let mut texts: Vec<String> = Vec::new();
        if key == SortKey::Name || key == SortKey::BackslashPath {
            for i in 0..hits.len()
                invariant
                    texts@.len() == i,
                    forall|j: int|
                        0 <= j < i ==> (#[trigger] texts@[j])@ == sort_text(key, hits@[j]@),
            {
                texts.push(
                    if key == SortKey::Name {
                        to_lowercase(hits[i].name.as_str())
                    } else {
                        respell(hits[i].path.as_str())
                    },
                );
            }
        }
        Sortable { key, hits, texts }
    }

    fn first(&self, i: usize, j: usize) -> (r: bool)
        requires
            self.wf(),
            i < self.hits@.len(),
            j < self.hits@.len(),
        ensures
            r == precedes(self.key, hit_views(self.hits@)[i as int], hit_views(self.hits@)[j as int]),
    {
        let a = &self.hits[i];
        let b = &self.hits[j];
        match self.key {
            SortKey::Relevance => a.score > b.score,
            SortKey::Name | SortKey::BackslashPath => bytes_before(
                self.texts[i].as_str().as_bytes(),
                self.texts[j].as_str().as_bytes(),
            ),
            SortKey::Path => bytes_before(a.path.as_str().as_bytes(), b.path.as_str().as_bytes()),
            SortKey::Size => a.size > b.size,
            SortKey::Modified => a.modified > b.modified,
        }
    }

    /// Merges two adjoining runs of rows.
    fn merged(&self, a: &[usize], b: &[usize], Ghost(lo): Ghost<int>, Ghost(mid): Ghost<int>, Ghost(
        hi,
    ): Ghost<int>) -> (r: Vec<usize>)
        requires
            self.wf(),
            0 <= lo <= mid <= hi <= self.hits@.len(),
            is_order(self.key, hit_views(self.hits@), a@, lo, mid),
            is_order(self.key, hit_views(self.hits@), b@, mid, hi),
        ensures
            is_order(self.key, hit_views(self.hits@), r@, lo, hi),
    {
        let ghost hits = hit_views(self.hits@);
        let ghost key = self.key;
        let mut r: Vec<usize> = Vec::new();
        let mut i: usize = 0;
        let mut j: usize = 0;
        let an: usize = a.len();
        let bn: usize = b.len();
        while i < an || j < bn
            invariant
                self.wf(),
                hits == hit_views(self.hits@),
                key == self.key,
                an == a@.len(),
                bn == b@.len(),
                0 <= lo <= mid <= hi <= hits.len(),
                hits.len() == self.hits@.len(),
                is_order(key, hits, a@, lo, mid),
                is_order(key, hits, b@, mid, hi),
                i <= an,
                j <= bn,
                r@.len() == i + j,
                forall|k: int| 0 <= k < r@.len() ==> lo <= (#[trigger] r@[k]) < hi,
                forall|k: int, m: int|
                    0 <= k < m < r@.len() ==> row_before(key, hits, (#[trigger] r@[k]) as int, (
                    #[trigger] r@[m]) as int),
                forall|k: int, m: int|
                    0 <= k < r@.len() && i <= m < an ==> row_before(
                        key,
                        hits,
                        (#[trigger] r@[k]) as int,
                        (#[trigger] a@[m]) as int,
                    ),
                forall|k: int, m: int|
                    0 <= k < r@.len() && j <= m < bn ==> row_before(
                        key,
                        hits,
                        (#[trigger] r@[k]) as int,
                        (#[trigger] b@[m]) as int,
                    ),
                forall|m: int| 0 <= m < i ==> r@.contains(#[trigger] a@[m]),
                forall|m: int| 0 <= m < j ==> r@.contains(#[trigger] b@[m]),
            decreases an - i + bn - j,
        {
            let from_b = if i == an {
                true
            } else if j == bn {
                false
            } else {
                self.first(b[j], a[i])
            };
            let ghost was = r@;
            let x: usize = if from_b {
                b[j]
            } else {
                a[i]
            };
            proof {
                assert forall|m: int| i <= m < an && !(m == i && !from_b) implies row_before(
                    key,
                    hits,
                    x as int,
                    (#[trigger] a@[m]) as int,
                ) by {
                    if from_b {
                        assert(row_before(key, hits, b@[j as int] as int, a@[i as int] as int)) by {
                            lemma_precedes(
                                key,
                                hits[b@[j as int] as int],
                                hits[a@[i as int] as int],
                                hits[a@[i as int] as int],
                            );
                        }
                        if m > i {
                            assert(row_before(key, hits, a@[i as int] as int, a@[m] as int));
                            lemma_row_before(
                                key,
                                hits,
                                x as int,
                                a@[i as int] as int,
                                a@[m] as int,
                            );
                        }
                    }
                }
                assert forall|m: int| j <= m < bn && !(m == j && from_b) implies row_before(
                    key,
                    hits,
                    x as int,
                    (#[trigger] b@[m]) as int,
                ) by {
                    if !from_b {
                        assert(a@[i as int] < b@[j as int]);
                        assert(row_before(key, hits, a@[i as int] as int, b@[j as int] as int));
                        if m > j {
                            assert(row_before(key, hits, b@[j as int] as int, b@[m] as int));
                            lemma_row_before(
                                key,
                                hits,
                                x as int,
                                b@[j as int] as int,
                                b@[m] as int,
                            );
                        }
                    }
                }
            }
            r.push(x);
            if from_b {
                j = j + 1;
            } else {
                i = i + 1;
            }
            proof {
                assert(r@[r@.len() - 1] == x);
                assert forall|y: usize| was.contains(y) implies #[trigger] r@.contains(y) by {
                    let k = choose|k: int| 0 <= k < was.len() && was[k] == y;
                    assert(r@[k] == y);
                }
                assert forall|k: int| 0 <= k < was.len() implies r@[k] == #[trigger] was[k] by {}
            }
        }
        assert forall|k: int| lo <= k < hi implies #[trigger] r@.contains(k as usize) by {
            if k < mid {
                assert(a@.contains(k as usize));
                let m = choose|m: int| 0 <= m < a@.len() && a@[m] == k as usize;
                assert(r@.contains(a@[m]));
            } else {
                assert(b@.contains(k as usize));
                let m = choose|m: int| 0 <= m < b@.len() && b@[m] == k as usize;
                assert(r@.contains(b@[m]));
            }
        }
        r
    }

    /// The rows from `lo` to `hi` in order.
    fn ordered(&self, lo: usize, hi: usize) -> (r: Vec<usize>)
        requires
            self.wf(),
            lo <= hi <= self.hits@.len(),
        ensures
            is_order(self.key, hit_views(self.hits@), r@, lo as int, hi as int),
        decreases hi - lo,
    {
        if hi - lo <= 1 {
            let mut r: Vec<usize> = Vec::new();
            if lo < hi {
                r.push(lo);
                assert(r@[0] == lo);
                assert forall|i: int| lo <= i < hi implies #[trigger] r@.contains(i as usize) by {
                    assert(r@[0] == i as usize);
                }
            }
            return r;
        }
        let mid: usize = lo + (hi - lo) / 2;
        let a = self.ordered(lo, mid);
        let b = self.ordered(mid, hi);
        self.merged(
            a.as_slice(),
            b.as_slice(),
            Ghost(lo as int),
            Ghost(mid as int),
            Ghost(hi as int),
        )
    }
}

/// A copy of a hit.
fn copied(h: &Hit) -> (r: Hit)
    ensures
        r@ == h@,
{
    Hit {
        idx: h.idx,
        score: h.score,
        name: h.name.clone(),
        path: h.path.clone(),
        is_dir: h.is_dir,
        size: h.size,
        modified: h.modified,
        content_line: match &h.content_line {
            Some((n, line)) => Some((*n, line.clone())),
            None => None,
        },
    }
}

/// Sorts hits.
pub fn sort_hits(hits: &mut Vec<Hit>, key: SortKey, descending: bool)
    ensures
        is_sorted(hit_views(final(hits)@), hit_views(old(hits)@), key, descending),
{
    let n: usize = hits.len();
    let turn = match key {
        SortKey::Name | SortKey::Path | SortKey::BackslashPath => descending,
        _ => !descending,
    };
    let mut sorted: Vec<Hit> = Vec::new();
    let rows = {
        let s = Sortable::new(key, hits.as_slice());
        s.ordered(0, n)
    };
    let ghost from = hit_views(hits@);
    let ghost goal = arranged(from, rows@, turn);
    for k in 0..n
        invariant
            n == rows@.len(),
            n == hits@.len(),
            from == hit_views(hits@),
            goal == arranged(from, rows@, turn),
            forall|a: int| 0 <= a < n ==> (#[trigger] rows@[a]) < n,
            hit_views(sorted@) == goal.take(k as int),
    {
        let at: usize = if turn {
            rows[n - 1 - k]
        } else {
            rows[k]
        };
        let ghost before = sorted@;
        let h = copied(&hits[at]);
        sorted.push(h);
        assert(hit_views(sorted@) =~= hit_views(before).push(h@));
        assert(goal.take(k + 1) =~= goal.take(k as int).push(goal[k as int]));
    }
    assert(goal.take(n as int) =~= goal);
    *hits = sorted;
    assert(is_order(key, from, rows@, 0, from.len() as int));
}

// ---------------------------------------------------------------------------
// Laws of sorting
// ---------------------------------------------------------------------------

/// There is one order of a list by a key, so what sorting gives is fixed.
pub proof fn law_order_is_unique(
    key: SortKey,
    hits: Seq<HitView>,
    p: Seq<usize>,
    q: Seq<usize>,
    lo: int,
    hi: int,
)
    requires
        0 <= lo <= hi <= hits.len() <= usize::MAX,
        is_order(key, hits, p, lo, hi),
        is_order(key, hits, q, lo, hi),
    ensures
        p == q,
{
    lemma_same_start(key, hits, p, q, lo, hi, p.len() as int);
    assert(p.take(p.len() as int) =~= p);
    assert(q.take(q.len() as int) =~= q);
}

proof fn lemma_same_start(
    key: SortKey,
    hits: Seq<HitView>,
    p: Seq<usize>,
    q: Seq<usize>,
    lo: int,
    hi: int,
    n: int,
)
    requires
        0 <= lo <= hi <= hits.len() <= usize::MAX,
        0 <= n <= hi - lo,
        is_order(key, hits, p, lo, hi),
        is_order(key, hits, q, lo, hi),
    ensures
        p.take(n) == q.take(n),
    decreases n,
{
    if n > 0 {
        lemma_same_start(key, hits, p, q, lo, hi, n - 1);
        let (x, y) = (p[n - 1], q[n - 1]);
        if x != y {
            assert(q.contains((x as int) as usize));
            assert(p.contains((y as int) as usize));
            let m = choose|m: int| 0 <= m < q.len() && q[m] == x;
            let k = choose|k: int| 0 <= k < p.len() && p[k] == y;
            if m < n - 1 {
                assert(p.take(n - 1)[m] == q.take(n - 1)[m]);
                assert(row_before(key, hits, p[m] as int, p[n - 1] as int));
                lemma_row_before(key, hits, x as int, x as int, x as int);
            }
            if k < n - 1 {
                assert(p.take(n - 1)[k] == q.take(n - 1)[k]);
                assert(row_before(key, hits, q[k] as int, q[n - 1] as int));
                lemma_row_before(key, hits, y as int, y as int, y as int);
            }
            assert(row_before(key, hits, q[n - 1] as int, q[m] as int));
            assert(row_before(key, hits, p[n - 1] as int, p[k] as int));
            lemma_row_before(key, hits, x as int, y as int, x as int);
        }
        assert(p.take(n) =~= p.take(n - 1).push(x));
        assert(q.take(n) =~= q.take(n - 1).push(y));
    }
}

/// Sorting a list twice, in whatever way, gives the one result.
pub proof fn law_sorting_is_determined(
    a: Seq<HitView>,
    b: Seq<HitView>,
    hits: Seq<HitView>,
    key: SortKey,
    descending: bool,
)
    requires
        hits.len() <= usize::MAX,
        is_sorted(a, hits, key, descending),
        is_sorted(b, hits, key, descending),
    ensures
        a == b,
{
    let n = hits.len() as int;
    let turn = turned(key, descending);
    let p = choose|p: Seq<usize>| #[trigger]
        is_order(key, hits, p, 0, n) && a == arranged(hits, p, turn);
    let q = choose|q: Seq<usize>| #[trigger]
        is_order(key, hits, q, 0, n) && b == arranged(hits, q, turn);
    law_order_is_unique(key, hits, p, q, 0, n);
}

/// Sorting keeps every hit and adds none.
pub proof fn law_sorting_keeps_hits(
    sorted: Seq<HitView>,
    hits: Seq<HitView>,
    key: SortKey,
    descending: bool,
)
    requires
        hits.len() <= usize::MAX,
        is_sorted(sorted, hits, key, descending),
    ensures
        sorted.len() == hits.len(),
        forall|h: HitView| sorted.contains(h) <==> hits.contains(h),
{
    let n = hits.len() as int;
    let turn = turned(key, descending);
    let p = choose|p: Seq<usize>| #[trigger]
        is_order(key, hits, p, 0, n) && sorted == arranged(hits, p, turn);
    assert forall|h: HitView| sorted.contains(h) <==> hits.contains(h) by {
        if sorted.contains(h) {
            let k = choose|k: int| 0 <= k < sorted.len() && sorted[k] == h;
            let at = if turn {
                p[n - 1 - k]
            } else {
                p[k]
            };
            assert(hits[at as int] == h);
        }
        if hits.contains(h) {
            let i = choose|i: int| 0 <= i < hits.len() && hits[i] == h;
            assert(p.contains(i as usize));
            let k = choose|k: int| 0 <= k < p.len() && p[k] == i as usize;
            if turn {
                assert(sorted[n - 1 - k] == h);
            } else {
                assert(sorted[k] == h);
            }
        }
    }
}

// ---------------------------------------------------------------------------
// Answers
// ---------------------------------------------------------------------------

/// What a search came to.
pub struct SearchResponse {
    pub generation: u64,
    pub hits: Vec<Hit>,
    pub total: usize,
    pub truncated: bool,
    /// How long the search took, in whole milliseconds.
    pub elapsed_ms: u64,
}

#[verifier::ext_equal]
pub struct ResponseView {
    pub generation: u64,
    pub hits: Seq<HitView>,
    pub total: usize,
    pub truncated: bool,
    pub elapsed_ms: u64,
}

impl View for SearchResponse {
    type V = ResponseView;

    open spec fn view(&self) -> ResponseView {
        ResponseView {
            generation: self.generation,
            hits: hit_views(self.hits@),
            total: self.total,
            truncated: self.truncated,
            elapsed_ms: self.elapsed_ms,
        }
    }
}

pub open spec fn response_views(list: Seq<SearchResponse>) -> Seq<ResponseView> {
    list.map_values(|r: SearchResponse| r@)
}

/// The newest of the answers that came in, if one is newer than what is shown.
/// Of two answers to one search the first counts.
pub open spec fn newest(list: Seq<ResponseView>, displayed: u64) -> Option<ResponseView>
    decreases list.len(),
{
    if list.len() == 0 {
        None
    } else {
        let before = newest(list.drop_last(), displayed);
        let last = list.last();
        let least = match before {
            Some(f) => f.generation,
            None => displayed,
        };
        if last.generation > least {
            Some(last)
        } else {
            before
        }
    }
}

/// Picks the newest answer.
pub fn pick_newest(list: Vec<SearchResponse>, displayed: u64) -> (r: Option<SearchResponse>)
    ensures
        (match r {
            Some(f) => newest(response_views(list@), displayed) == Some(f@),
            None => newest(response_views(list@), displayed) is None,
        }),
{
    let ghost all = response_views(list@);
    let ghost start = list@;
    let mut fresh: Option<SearchResponse> = None;
    for res in it: list
        invariant
            it.seq() == start,
            all == response_views(start),
            (match fresh {
                Some(f) => newest(all.take(it.index() as int), displayed) == Some(f@),
                None => newest(all.take(it.index() as int), displayed) is None,
            }),
    {
        let ghost n = it.index() as int;
        assert(all.take(n + 1).drop_last() =~= all.take(n));
        assert(all.take(n + 1).last() == res@);
        let least: u64 = match &fresh {
            Some(f) => f.generation,
            None => displayed,
        };
        if res.generation > least {
            fresh = Some(res);
        }
    }
    assert(all.take(all.len() as int) =~= all);
    fresh
}

// ---------------------------------------------------------------------------
// The list
// ---------------------------------------------------------------------------

pub struct ResultList {
    pub results: Vec<Hit>,
    pub total: usize,
    pub truncated: bool,
    pub search_ms: u64,
    /// Generation of the results currently on screen.
    pub displayed_generation: u64,
    pub selected: Option<usize>,
    pub sort: SortKey,
    pub sort_descending: bool,
    /// Scroll the table to the selected row when it is next drawn.
    pub scroll_to_selected: bool,
    /// The entry that the preview pane shows.
    pub preview_for: Option<u32>,
}

#[verifier::ext_equal]
pub struct ListView {
    pub results: Seq<HitView>,
    pub total: usize,
    pub truncated: bool,
    pub search_ms: u64,
    pub displayed_generation: u64,
    pub selected: Option<usize>,
    pub sort: SortKey,
    pub sort_descending: bool,
    pub scroll_to_selected: bool,
    pub preview_for: Option<u32>,
}

impl View for ResultList {
    type V = ListView;

    open spec fn view(&self) -> ListView {
        ListView {
            results: hit_views(self.results@),
            total: self.total,
            truncated: self.truncated,
            search_ms: self.search_ms,
            displayed_generation: self.displayed_generation,
            selected: self.selected,
            sort: self.sort,
            sort_descending: self.sort_descending,
            scroll_to_selected: self.scroll_to_selected,
            preview_for: self.preview_for,
        }
    }
}

/// The row of an entry, if it is listed.
pub open spec fn row_of(hits: Seq<HitView>, idx: u32) -> Option<usize>
    decreases hits.len(),
{
    if hits.len() == 0 {
        None
    } else {
        match row_of(hits.drop_last(), idx) {
            Some(i) => Some(i),
            None => if hits.last().idx == idx {
                Some((hits.len() - 1) as usize)
            } else {
                None
            },
        }
    }
}

impl ListView {
    /// The selected entry, if a row is selected.
    pub open spec fn selected_entry(self) -> Option<u32> {
        match self.selected {
            Some(row) if row < self.results.len() => Some(self.results[row as int].idx),
            _ => None,
        }
    }

    /// The row of an entry in a new list of results.
    pub open spec fn followed(self, results: Seq<HitView>) -> Option<usize> {
        match self.selected_entry() {
            Some(idx) => row_of(results, idx),
            None => None,
        }
    }

    /// Whether `now` is the list sorted again, with the selection on the same
    /// entry.
    pub open spec fn resorted(self, now: ListView) -> bool {
        &&& is_sorted(now.results, self.results, self.sort, self.sort_descending)
        &&& now == (ListView {
            results: now.results,
            selected: self.followed(now.results),
            ..self
        })
    }

    /// Whether `now` is the list that shows an answer: sorted unless it comes
    /// ranked, and with the selection on the same entry.
    pub open spec fn showing(self, res: ResponseView, now: ListView) -> bool {
        &&& if self.sort == SortKey::Relevance {
            now.results == res.hits
        } else {
            is_sorted(now.results, res.hits, self.sort, self.sort_descending)
        }
        &&& now == (ListView {
            results: now.results,
            total: res.total,
            truncated: res.truncated,
            search_ms: res.elapsed_ms,
            displayed_generation: res.generation,
            selected: self.followed(now.results),
            ..self
        })
    }

    /// The list with a sort key clicked: the same key again turns the order
    /// round, another one starts descending.
    pub open spec fn with_key(self, key: SortKey) -> ListView {
        if self.sort == key {
            ListView { sort_descending: !self.sort_descending, ..self }
        } else {
            ListView { sort: key, sort_descending: true, ..self }
        }
    }

    /// Whether selecting a row changes what the preview pane is about.
    pub open spec fn turns_to(self, row: usize) -> bool {
        row < self.results.len() && self.preview_for != Some(self.results[row as int].idx)
    }

    /// The list with a row selected.
    pub open spec fn with_selected(self, row: usize) -> ListView {
        ListView {
            selected: Some(row),
            preview_for: if self.turns_to(row) {
                Some(self.results[row as int].idx)
            } else {
                self.preview_for
            },
            ..self
        }
    }

    /// The row below the selected one; the first where none is selected.
    pub open spec fn row_below(self) -> usize {
        match self.selected {
            Some(s) => (if s + 1 < self.results.len() {
                s + 1
            } else {
                self.results.len() - 1
            }) as usize,
            None => 0,
        }
    }

    /// The row above the selected one; the first where none is selected.
    pub open spec fn row_above(self) -> usize {
        match self.selected {
            Some(s) if s > 0 => (s - 1) as usize,
            _ => 0,
        }
    }
}

/// An empty list, to be sorted by relevance.
pub open spec fn empty_list() -> ListView {
    ListView {
        results: Seq::empty(),
        total: 0,
        truncated: false,
        search_ms: 0,
        displayed_generation: 0,
        selected: None,
        sort: SortKey::Relevance,
        sort_descending: true,
        scroll_to_selected: false,
        preview_for: None,
    }
}

/// The row of an entry, if it is listed.
fn find_row(hits: &[Hit], idx: u32) -> (r: Option<usize>)
    ensures
        r == row_of(hit_views(hits@), idx),
{
    let ghost all = hit_views(hits@);
    for i in 0..hits.len()
        invariant
            all == hit_views(hits@),
            row_of(all.take(i as int), idx) is None,
    {
        assert(all.take(i + 1).drop_last() =~= all.take(i as int));
        assert(all.take(i + 1).last() == hits@[i as int]@);
        if hits[i].idx == idx {
            proof {
                lemma_row_stays(all, i + 1, idx);
            }
            return Some(i);
        }
    }
    assert(all.take(all.len() as int) =~= all);
    None
}

proof fn lemma_row_stays(all: Seq<HitView>, n: int, idx: u32)
    requires
        0 <= n <= all.len(),
        row_of(all.take(n), idx) is Some,
    ensures
        row_of(all, idx) == row_of(all.take(n), idx),
    decreases all.len() - n,
{
    if n < all.len() {
        assert(all.take(n + 1).drop_last() =~= all.take(n));
        lemma_row_stays(all, n + 1, idx);
    } else {
        assert(all.take(n) =~= all);
    }
}

impl ResultList {
    pub fn new() -> (r: ResultList)
        ensures
            r@ == empty_list(),
    {
        let r = ResultList {
            results: Vec::new(),
            total: 0,
            truncated: false,
            search_ms: 0,
            displayed_generation: 0,
            selected: None,
            sort: SortKey::Relevance,
            sort_descending: true,
            scroll_to_selected: false,
            preview_for: None,
        };
        assert(r@.results =~= Seq::<HitView>::empty());
        r
    }

    fn entry_selected(&self) -> (r: Option<u32>)
        ensures
            r == self@.selected_entry(),
    {
        match self.selected {
            Some(row) => if row < self.results.len() {
                assert(hit_views(self.results@)[row as int] == self.results@[row as int]@);
                Some(self.results[row].idx)
            } else {
                None
            },
            None => None,
        }
    }

    fn follow(&mut self, entry: Option<u32>)
        ensures
            final(self)@ == (ListView {
                selected: match entry {
                    Some(idx) => row_of(old(self)@.results, idx),
                    None => None,
                },
                ..old(self)@
            }),
    {
        self.selected = match entry {
            Some(idx) => find_row(self.results.as_slice(), idx),
            None => None,
        };
    }

    /// Sorts again, keeping the selection on the same entry.
    pub fn apply_sort(&mut self)
        ensures
            old(self)@.resorted(final(self)@),
    {
        let entry = self.entry_selected();
        sort_hits(&mut self.results, self.sort, self.sort_descending);
        self.follow(entry);
    }

    /// Takes in the answers that came since, and shows the newest if it is newer
    /// than what is shown. The selection follows the entry, not the row number:
    /// a refresh in the background must never steal the user's spot. Says
    /// whether anything changed.
    pub fn accept(&mut self, answers: Vec<SearchResponse>) -> (changed: bool)
        ensures
            (match newest(response_views(answers@), old(self)@.displayed_generation) {
                Some(res) => changed && old(self)@.showing(res, final(self)@),
                None => !changed && final(self)@ == old(self)@,
            }),
    {
        match pick_newest(answers, self.displayed_generation) {
            Some(res) => {
                self.show(res);
                true
            },
            None => false,
        }
    }

    /// Shows an answer.
    pub fn show(&mut self, res: SearchResponse)
        ensures
            old(self)@.showing(res@, final(self)@),
    {
        let entry = self.entry_selected();
        self.displayed_generation = res.generation;
        self.results = res.hits;
        self.total = res.total;
        self.truncated = res.truncated;
        self.search_ms = res.elapsed_ms;
        if self.sort != SortKey::Relevance {
            sort_hits(&mut self.results, self.sort, self.sort_descending);
        }
        self.follow(entry);
    }

    /// Sorts by a column whose header was clicked.
    pub fn click_header(&mut self, key: SortKey)
        ensures
            old(self)@.with_key(key).resorted(final(self)@),
    {
        if self.sort == key {
            self.sort_descending = !self.sort_descending;
        } else {
            self.sort = key;
            self.sort_descending = true;
        }
        self.apply_sort();
    }

    /// What the header of a column shows.
    pub fn header_text(&self, label: &str, key: SortKey) -> (r: String)
        ensures
            r@ == label@ + (if self@.sort != key {
                Seq::empty()
            } else if self@.sort_descending {
                " \u{25bc}"@
            } else {
                " \u{25b2}"@
            }),
    {
        let mut r = label.to_owned();
        if self.sort == key {
            if self.sort_descending {
                r.append(" \u{25bc}");
            } else {
                r.append(" \u{25b2}");
            }
        } else {
            assert(r@ =~= label@ + Seq::<char>::empty());
        }
        r
    }

    /// Selects a row. Says whether the preview pane turns to another entry.
    pub fn select(&mut self, row: usize) -> (turned: bool)
        ensures
            final(self)@ == old(self)@.with_selected(row),
            turned == old(self)@.turns_to(row),
    {
        self.selected = Some(row);
        if row < self.results.len() {
            let idx = self.results[row].idx;
            assert(hit_views(self.results@)[row as int].idx == idx);
            if self.preview_for != Some(idx) {
                self.preview_for = Some(idx);
                return true;
            }
        }
        false
    }

    /// Moves the selection down or up by a row. Says whether the preview pane
    /// turns to another entry.
    pub fn step(&mut self, down: bool) -> (turned: bool)
        requires
            old(self)@.results.len() > 0,
        ensures
            ({
                let row = if down {
                    old(self)@.row_below()
                } else {
                    old(self)@.row_above()
                };
                &&& final(self)@ == (ListView {
                    scroll_to_selected: true,
                    ..old(self)@.with_selected(row)
                })
                &&& turned == old(self)@.turns_to(row)
            }),
    {
        let last: usize = self.results.len() - 1;
        let row: usize = match self.selected {
            Some(s) => if down {
                if s < last {
                    s + 1
                } else {
                    last
                }
            } else if s > 0 {
                s - 1
            } else {
                0
            },
            None => 0,
        };
        let turned = self.select(row);
        self.scroll_to_selected = true;
        turned
    }

    /// Whether any result has a matching line to show.
    pub fn has_content(&self) -> (r: bool)
        ensures
            r == exists|i: int|
                0 <= i < self@.results.len() && (#[trigger] self@.results[i]).content_line is Some,
    {
        for i in 0..self.results.len()
            invariant
                forall|j: int|
                    0 <= j < i ==> (#[trigger] hit_views(self.results@)[j]).content_line is None,
        {
            assert(hit_views(self.results@)[i as int] == self.results@[i as int]@);
            if self.results[i].content_line.is_some() {
                return true;
            }
        }
        false
    }
}

// ---------------------------------------------------------------------------
// Laws of the list
// ---------------------------------------------------------------------------

proof fn lemma_row_of(hits: Seq<HitView>, idx: u32)
    requires
        hits.len() <= usize::MAX,
    ensures
        (match row_of(hits, idx) {
            Some(i) => i < hits.len() && hits[i as int].idx == idx && forall|k: int|
                0 <= k < i ==> (#[trigger] hits[k]).idx != idx,
            None => forall|k: int| 0 <= k < hits.len() ==> (#[trigger] hits[k]).idx != idx,
        }),
    decreases hits.len(),
{
    if hits.len() > 0 {
        lemma_row_of(hits.drop_last(), idx);
        assert forall|k: int| 0 <= k < hits.len() - 1 implies hits.drop_last()[k]
            == #[trigger] hits[k] by {}
    }
}

/// A refresh never moves the selection to another entry: what is selected
/// afterwards is the entry that was selected before, and it stays selected as
/// long as it is listed.
pub proof fn law_selection_follows_the_entry(before: ListView, res: ResponseView, now: ListView)
    requires
        res.hits.len() <= usize::MAX,
        now.results.len() <= usize::MAX,
        before.showing(res, now),
    ensures
        now.selected is Some ==> now.selected_entry() == before.selected_entry(),
        before.selected_entry() matches Some(idx) ==> (now.selected is Some <==> exists|i: int|
            0 <= i < res.hits.len() && (#[trigger] res.hits[i]).idx == idx),
{
    if let Some(idx) = before.selected_entry() {
        lemma_row_of(now.results, idx);
        if before.sort != SortKey::Relevance {
            law_sorting_keeps_hits(now.results, res.hits, before.sort, before.sort_descending);
        }
        if now.selected is Some {
            let h = now.results[now.selected->0 as int];
            assert(now.results.contains(h));
            assert(res.hits.contains(h));
            let i = choose|i: int| 0 <= i < res.hits.len() && res.hits[i] == h;
            assert(res.hits[i].idx == idx);
        }
        if exists|i: int| 0 <= i < res.hits.len() && (#[trigger] res.hits[i]).idx == idx {
            let i = choose|i: int| 0 <= i < res.hits.len() && (#[trigger] res.hits[i]).idx == idx;
            assert(res.hits.contains(res.hits[i]));
            assert(now.results.contains(res.hits[i]));
            let k = choose|k: int| 0 <= k < now.results.len() && now.results[k] == res.hits[i];
            assert(now.results[k].idx == idx);
        }
    }
}

/// The answer that is picked is newer than what is shown, and none that came in
/// is newer.
pub proof fn law_newest_answer_wins(list: Seq<ResponseView>, displayed: u64)
    ensures
        (match newest(list, displayed) {
            Some(f) => f.generation > displayed && list.contains(f) && forall|i: int|
                0 <= i < list.len() ==> (#[trigger] list[i]).generation <= f.generation,
            None => forall|i: int|
                0 <= i < list.len() ==> (#[trigger] list[i]).generation <= displayed,
        }),
    decreases list.len(),
{
    if list.len() > 0 {
        let front = list.drop_last();
        law_newest_answer_wins(front, displayed);
        assert forall|i: int| 0 <= i < front.len() implies front[i] == #[trigger] list[i] by {}
        assert(list[list.len() - 1] == list.last());
        if let Some(f) = newest(front, displayed) {
            let k = choose|k: int| 0 <= k < front.len() && front[k] == f;
            assert(list[k] == f);
        }
    }
}

/// Moving down, or up, from a listed row stays within the list.
pub proof fn law_steps_stay_within_the_list(v: ListView)
    requires
        v.results.len() > 0,
        v.selected matches Some(s) ==> s < v.results.len(),
    ensures
        v.row_below() < v.results.len(),
        v.row_above() < v.results.len(),
{
}

/// Texts are in the order of the first byte in which they differ, and a text comes
/// before what continues it.
pub proof fn law_texts_are_in_byte_order(a: Seq<u8>, b: Seq<u8>, n: int)
    requires
        0 <= n <= a.len(),
        n <= b.len(),
        a.take(n) == b.take(n),
        n < a.len() && n < b.len() ==> a[n] != b[n],
        n == a.len() || n == b.len() || a[n] != b[n],
    ensures
        text_before(a, b) <==> (n < b.len() && (n == a.len() || a[n] < b[n])),
    decreases n,
{
    if n > 0 {
        assert(a[0] == a.take(n)[0] && b[0] == b.take(n)[0]);
        let (a1, b1) = (a.drop_first(), b.drop_first());
        assert(a1.take(n - 1) =~= a.take(n).drop_first());
        assert(b1.take(n - 1) =~= b.take(n).drop_first());
        law_texts_are_in_byte_order(a1, b1, n - 1);
    }
}

/// A sorted list goes by its key: descending, the best score, the largest size
/// and the newest change come first; ascending, names and paths are in the order of
/// their bytes, names in lower case. The other direction is the reverse.
pub proof fn law_sorted_lists_go_by_their_key(
    sorted: Seq<HitView>,
    hits: Seq<HitView>,
    key: SortKey,
    descending: bool,
    i: int,
    j: int,
)
    requires
        hits.len() <= usize::MAX,
        is_sorted(sorted, hits, key, descending),
        0 <= i < j < sorted.len(),
    ensures
        ({
            let (a, b) = if descending {
                (sorted[i], sorted[j])
            } else {
                (sorted[j], sorted[i])
            };
            match key {
                SortKey::Relevance => a.score >= b.score,
                SortKey::Size => a.size >= b.size,
                SortKey::Modified => a.modified >= b.modified,
                SortKey::Name => !text_before(bytes(lowercase(a.name)), bytes(lowercase(b.name))),
                SortKey::Path => !text_before(bytes(a.path), bytes(b.path)),
                SortKey::BackslashPath => !text_before(
                    bytes(respelled(a.path)),
                    bytes(respelled(b.path)),
                ),
            }
        }),
{
    let n = hits.len() as int;
    let turn = turned(key, descending);
    let p = choose|p: Seq<usize>| #[trigger]
        is_order(key, hits, p, 0, n) && sorted == arranged(hits, p, turn);
    if turn {
        assert(row_before(key, hits, p[n - 1 - j] as int, p[n - 1 - i] as int));
        lemma_precedes(
            key,
            hits[p[n - 1 - j] as int],
            hits[p[n - 1 - i] as int],
            hits[p[n - 1 - i] as int],
        );
    } else {
        assert(row_before(key, hits, p[i] as int, p[j] as int));
        lemma_precedes(key, hits[p[i] as int], hits[p[j] as int], hits[p[j] as int]);
    }
}

/// Rows that the key does not tell apart stay in their order where the list is
/// shown in the order of its key, and are reversed where it is turned round.
pub proof fn law_equal_rows_keep_their_order(
    sorted: Seq<HitView>,
    hits: Seq<HitView>,
    key: SortKey,
    descending: bool,
)
    requires
        hits.len() <= usize::MAX,
        is_sorted(sorted, hits, key, descending),
    ensures
        exists|p: Seq<usize>|
            {
                &&& #[trigger] p.no_duplicates()
                &&& p.len() == hits.len()
                &&& forall|k: int|
                    0 <= k < p.len() ==> (#[trigger] p[k]) < hits.len() && sorted[k]
                        == hits[p[k] as int]
                &&& forall|i: int, j: int|
                    0 <= i < j < p.len() && ((key == SortKey::Size && hits[p[i] as int].size
                        == hits[p[j] as int].size) || (key == SortKey::Modified
                        && hits[p[i] as int].modified == hits[p[j] as int].modified)) ==> (
                    descending <==> #[trigger] p[i] < #[trigger] p[j])
                &&& forall|i: int, j: int|
                    0 <= i < j < p.len() && ((key == SortKey::Name && hits[p[i] as int].name
                        == hits[p[j] as int].name) || (key == SortKey::Path && hits[p[i] as int].path
                        == hits[p[j] as int].path)) ==> (!descending <==> #[trigger] p[i]
                        < #[trigger] p[j])
            },
{
    let n = hits.len() as int;
    let turn = turned(key, descending);
    let q = choose|p: Seq<usize>| #[trigger]
        is_order(key, hits, p, 0, n) && sorted == arranged(hits, p, turn);
    let p = Seq::new(
        q.len(),
        |k: int|
            if turn {
                q[n - 1 - k]
            } else {
                q[k]
            },
    );
    assert forall|i: int, j: int| 0 <= i < q.len() && 0 <= j < q.len() && i < j implies q[i]
        != q[j] by {
        assert(row_before(key, hits, q[i] as int, q[j] as int));
        lemma_row_before(key, hits, q[i] as int, q[i] as int, q[i] as int);
    }
    assert(p.no_duplicates());
    assert forall|i: int, j: int| 0 <= i < j < p.len() implies {
        let (a, b) = if turn {
            (p[j], p[i])
        } else {
            (p[i], p[j])
        };
        row_before(key, hits, a as int, b as int) && #[trigger] p[i] != #[trigger] p[j]
    } by {
        if turn {
            assert(row_before(key, hits, q[n - 1 - j] as int, q[n - 1 - i] as int));
        } else {
            assert(row_before(key, hits, q[i] as int, q[j] as int));
        }
    }
    assert forall|i: int, j: int|
        0 <= i < j < p.len() && ((key == SortKey::Name && hits[p[i] as int].name
            == hits[p[j] as int].name) || (key == SortKey::Path && hits[p[i] as int].path
            == hits[p[j] as int].path)) implies (!descending <==> #[trigger] p[i]
        < #[trigger] p[j]) by {
        lemma_precedes(key, hits[p[i] as int], hits[p[j] as int], hits[p[j] as int]);
        lemma_text_order(
            bytes(lowercase(hits[p[i] as int].name)),
            bytes(lowercase(hits[p[i] as int].name)),
            bytes(lowercase(hits[p[i] as int].name)),
        );
        lemma_text_order(
            bytes(hits[p[i] as int].path),
            bytes(hits[p[i] as int].path),
            bytes(hits[p[i] as int].path),
        );
    }
}

/// The first click on a header sorts by that column, descending, and the next one
/// on the same header turns the list round.
pub proof fn law_clicks_on_headers(v: ListView, key: SortKey)
    ensures
        v.with_key(key).sort == key,
        v.sort != key ==> v.with_key(key).sort_descending,
        v.sort == key ==> v.with_key(key).sort_descending != v.sort_descending,
        v.with_key(key).results == v.results,
        v.with_key(key).selected == v.selected,
{
}

/// What a list shows of an answer is the answer: its hits in the order of relevance
/// as they came, its number of matches, its generation.
pub proof fn law_answers_are_shown(v: ListView, res: ResponseView, now: ListView, h: HitView)
    requires
        res.hits.len() <= usize::MAX,
        v.showing(res, now),
    ensures
        now.total == res.total,
        now.truncated == res.truncated,
        now.search_ms == res.elapsed_ms,
        now.displayed_generation == res.generation,
        now.results.len() == res.hits.len(),
        now.results.contains(h) <==> res.hits.contains(h),
        v.sort == SortKey::Relevance ==> now.results == res.hits,
        now.sort == v.sort,
        now.sort_descending == v.sort_descending,
        now.preview_for == v.preview_for,
{
    if v.sort != SortKey::Relevance {
        law_sorting_keeps_hits(now.results, res.hits, v.sort, v.sort_descending);
    }
}

}
