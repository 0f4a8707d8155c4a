//! Building an index: from directory walks in one go, or streamed into a live
//! index in batches so that it is searchable while the scan runs.

use crate::dir_map::DirMap;
use crate::index::{
    children_of, empty_index, entry_views, has_dir_parent, keeps_order, lemma_child_path,
    lemma_map_grown, lemma_map_kept, lemma_order_push, lemma_order_same, lemma_path_pushed,
    lemma_wf_same_links, linked, map_is_right, ordered, path_at, path_within, plan_of, purged,
    reaches_top, without, Entry, EntryView, Index, IndexView, LaunchPlan, MAX_HOPS, NO_PARENT,
};
use crate::paths::{is_plain_name, joined_path, lemma_join_components, normal};
use crate::text::{listed_string, views};
use vstd::prelude::*;

verus! {

/// Entries that a stream holds back before it publishes them.
pub const BATCH: usize = 65_536;

/// One entry that a directory walk came across.
pub struct WalkEntry {
    pub path: String,
    pub parent_path: String,
    pub name: String,
    /// Levels below the root of the walk, which itself has depth 0.
    pub depth: usize,
    pub is_dir: bool,
    /// Length and Unix seconds of last modification, where they could be read.
    pub stat: Option<(u64, i64)>,
}

#[verifier::ext_equal]
pub struct WalkView {
    pub path: Seq<char>,
    pub parent_path: Seq<char>,
    pub name: Seq<char>,
    pub depth: nat,
    pub dir: bool,
    pub stat: Option<(u64, i64)>,
}

impl View for WalkEntry {
    type V = WalkView;

    open spec fn view(&self) -> WalkView {
        WalkView {
            path: self.path@,
            parent_path: self.parent_path@,
            name: self.name@,
            depth: self.depth as nat,
            dir: self.is_dir,
            stat: self.stat,
        }
    }
}

pub open spec fn walk_views(walk: Seq<WalkEntry>) -> Seq<WalkView> {
    walk.map_values(|w: WalkEntry| w@)
}

impl WalkView {
    /// The parent pointer: none for the root of the walk, else the known
    /// directory that the entry lies in.
    pub open spec fn parent_in(self, known: Map<Seq<char>, u32>) -> Option<u32> {
        if self.depth == 0 {
            Some(NO_PARENT)
        } else if known.contains_key(normal(self.parent_path)) {
            Some(known[normal(self.parent_path)])
        } else {
            None
        }
    }

    /// The entry for what was found. The root of the walk keeps its full path
    /// as its name, so that paths can be put together again.
    pub open spec fn entry(self, parent: u32) -> EntryView {
        EntryView {
            name: if self.depth == 0 {
                self.path
            } else {
                self.name
            },
            parent,
            size: match self.stat {
                Some((len, _)) if !self.dir => len,
                _ => 0,
            },
            modified: match self.stat {
                Some((_, modified)) => modified,
                None => 0,
            },
            dir: self.dir,
            deleted: false,
        }
    }
}

/// The index with one more entry.
pub open spec fn grown(v: IndexView, e: EntryView) -> IndexView {
    IndexView { entries: v.entries.push(e), children: children_of(v.entries.push(e)), ..v }
}

/// The map with the directory of a walked entry, if it is one.
pub open spec fn with_dir(m: Map<Seq<char>, u32>, w: WalkView, idx: u32) -> Map<Seq<char>, u32> {
    if w.dir {
        m.insert(normal(w.path), idx)
    } else {
        m
    }
}

/// The index after one walked entry; an entry whose parent is not indexed is
/// passed over.
pub open spec fn walked_one(v: IndexView, w: WalkView) -> IndexView {
    match w.parent_in(v.dir_map) {
        None => v,
        Some(p) => IndexView {
            dir_map: with_dir(v.dir_map, w, v.entries.len() as u32),
            ..grown(v, w.entry(p))
        },
    }
}

/// The index after a whole walk.
pub open spec fn walked(v: IndexView, walk: Seq<WalkView>) -> IndexView
    decreases walk.len(),
{
    if walk.len() == 0 {
        v
    } else {
        walked_one(walked(v, walk.drop_last()), walk.last())
    }
}

/// As `walked_one`, for a stream: parents are looked up among the directories
/// of this stream only.
pub open spec fn streamed_one(s: (IndexView, Map<Seq<char>, u32>), w: WalkView) -> (
    IndexView,
    Map<Seq<char>, u32>,
) {
    let (v, known) = s;
    match w.parent_in(known) {
        None => s,
        Some(p) => {
            let idx = v.entries.len() as u32;
            (
                IndexView { dir_map: with_dir(v.dir_map, w, idx), ..grown(v, w.entry(p)) },
                with_dir(known, w, idx),
            )
        },
    }
}

/// The index and the directories of the stream after a whole walk.
pub open spec fn streamed(v: IndexView, walk: Seq<WalkView>) -> (IndexView, Map<Seq<char>, u32>)
    decreases walk.len(),
{
    if walk.len() == 0 {
        (v, Map::empty())
    } else {
        streamed_one(streamed(v, walk.drop_last()), walk.last())
    }
}

proof fn lemma_walked_len(v: IndexView, walk: Seq<WalkView>)
    ensures
        walked(v, walk).entries.len() <= v.entries.len() + walk.len(),
    decreases walk.len(),
{
    if walk.len() > 0 {
        lemma_walked_len(v, walk.drop_last());
    }
}

impl WalkEntry {
    /// The entry to store.
    fn to_entry(&self, parent: u32) -> (r: Entry)
        ensures
            r@ == self@.entry(parent),
    {
        let name = if self.depth == 0 {
            self.path.clone()
        } else {
            self.name.clone()
        };
        let (size, modified): (u64, i64) = match self.stat {
            Some((len, modified)) => (
                if self.is_dir {
                    0
                } else {
                    len
                },
                modified,
            ),
            None => (0, 0),
        };
        Entry::new(name, parent, size, modified, self.is_dir)
    }

    /// The parent pointer.
    fn parent_among(&self, known: &DirMap) -> (r: Option<u32>)
        requires
            known.wf(),
        ensures
            r == self@.parent_in(known@),
    {
        if self.depth == 0 {
            Some(NO_PARENT)
        } else {
            known.get(self.parent_path.as_str())
        }
    }
}

/// Adds one walked entry to the index.
pub fn add_walked(index: &mut Index, w: &WalkEntry)
    requires
        old(index).wf(),
        old(index)@.entries.len() < NO_PARENT,
    ensures
        final(index).wf(),
        final(index)@ == walked_one(old(index)@, w@),
        keeps_order(old(index)@.entries, final(index)@.entries),
{
    let ghost v = index@;
    let parent = match w.parent_among(&index.dir_map) {
        Some(p) => p,
        None => return ,
    };
    let idx = index.entries.len() as u32;
    proof {
        if w@.depth > 0 {
            assert(v.dir_map.contains_key(normal(w@.parent_path)));
        }
        lemma_order_push(v.entries, w@.entry(parent));
    }
    index.append(w.to_entry(parent));
    if w.is_dir {
        index.dir_map.insert(w.path.as_str(), idx);
    }
}

/// Adds a whole walk to the index.
pub fn scan_root(index: &mut Index, walk: &[WalkEntry])
    requires
        old(index).wf(),
        old(index)@.entries.len() + walk@.len() <= NO_PARENT,
    ensures
        final(index).wf(),
        final(index)@ == walked(old(index)@, walk_views(walk@)),
        keeps_order(old(index)@.entries, final(index)@.entries),
{
    let ghost v = index@;
    let ghost all = walk_views(walk@);
    for i in 0..walk.len()
        invariant
            index.wf(),
            all == walk_views(walk@),
            index@ == walked(v, all.take(i as int)),
            v.entries.len() + walk@.len() <= NO_PARENT,
            keeps_order(v.entries, index@.entries),
    {
        proof {
            lemma_walked_len(v, all.take(i as int));
            assert(all.take(i + 1).drop_last() =~= all.take(i as int));
            assert(all.take(i + 1).last() == walk@[i as int]@);
        }
        add_walked(index, &walk[i]);
    }
    assert(all.take(all.len() as int) =~= all);
}

// ---------------------------------------------------------------------------
// Streaming
// ---------------------------------------------------------------------------

/// A walk on its way into a live index. Entry numbers are assigned here, so the
/// live index is touched only when a batch is published.
pub struct RootStream {
    dirs: DirMap,
    pending: Vec<Entry>,
    pending_dirs: Vec<(String, u32)>,
    base: u32,
}

/// The paths and numbers of the directories held back.
pub open spec fn dir_views(list: Seq<(String, u32)>) -> Seq<(Seq<char>, u32)> {
    list.map_values(|d: (String, u32)| (d.0@, d.1))
}

/// The map with the given directories, in order.
pub open spec fn with_dirs(m: Map<Seq<char>, u32>, list: Seq<(Seq<char>, u32)>) -> Map<
    Seq<char>,
    u32,
>
    decreases list.len(),
{
    if list.len() == 0 {
        m
    } else {
        with_dirs(m, list.drop_last()).insert(normal(list.last().0), list.last().1)
    }
}

impl RootStream {
    /// The directories are numbered as they will be published, and what is held
    /// back comes after its directory.
    pub closed spec fn wf(self) -> bool {
        &&& self.dirs.wf()
        &&& self.base + self.pending@.len() <= NO_PARENT
        &&& forall|k: Seq<char>| #[trigger]
            self.dirs@.contains_key(k) ==> self.dirs@[k] < self.base + self.pending@.len()
        &&& forall|i: int|
            0 <= i < self.pending@.len() ==> (#[trigger] self.pending@[i]).parent == NO_PARENT
                || self.pending@[i].parent < self.base + i
        &&& forall|i: int|
            0 <= i < self.pending_dirs@.len() ==> self.base <= (#[trigger] self.pending_dirs@[i]).1
                < self.base + self.pending@.len() && self.pending@[self.pending_dirs@[i].1
                - self.base]@.dir
    }

    /// Length of the live index that this stream continues.
    pub closed spec fn base_spec(self) -> u32 {
        self.base
    }

    /// Number of entries held back.
    pub closed spec fn waiting(self) -> nat {
        self.pending@.len()
    }

    /// The directories that the stream has come across.
    pub closed spec fn known(self) -> Map<Seq<char>, u32> {
        self.dirs@
    }

    /// The live index as it will be once everything held back is published.
    pub closed spec fn ahead(self, live: IndexView) -> IndexView {
        let entries = live.entries + entry_views(self.pending@);
        IndexView {
            entries,
            children: children_of(entries),
            dir_map: with_dirs(live.dir_map, dir_views(self.pending_dirs@)),
            ..live
        }
    }

    /// A stream that continues a live index of the given length.
    pub fn start(base: u32) -> (r: RootStream)
        ensures
            r.wf(),
            r.base_spec() == base,
            r.waiting() == 0,
            r.known() == Map::<Seq<char>, u32>::empty(),
            forall|live: IndexView|
                live.wf() ==> #[trigger] r.ahead(live) == live,
    {
        let r = RootStream {
            dirs: DirMap::new(),
            pending: Vec::new(),
            pending_dirs: Vec::new(),
            base,
        };
        assert forall|live: IndexView| live.wf() implies #[trigger] r.ahead(live) == live by {
            assert(live.entries + entry_views(r.pending@) =~= live.entries);
        }
        r
    }

    /// Length of the live index that this stream continues.
    pub fn base(&self) -> (r: u32)
        ensures
            r == self.base_spec(),
    {
        self.base
    }

    /// Takes in one walked entry; tells whether a batch is full.
    pub fn add(&mut self, w: &WalkEntry) -> (full: bool)
        requires
            old(self).wf(),
            old(self).base_spec() + old(self).waiting() < NO_PARENT,
        ensures
            final(self).wf(),
            final(self).base_spec() == old(self).base_spec(),
            final(self).waiting() <= old(self).waiting() + 1,
            full == (final(self).waiting() >= BATCH),
            forall|live: IndexView|
                live.entries.len() == old(self).base_spec() ==> (
                #[trigger] final(self).ahead(live),
                final(self).known(),
                ) == streamed_one((old(self).ahead(live), old(self).known()), w@),
    {
        let ghost start = *self;
        if let Some(parent) = w.parent_among(&self.dirs) {
            let idx = self.base + self.pending.len() as u32;
            let e = w.to_entry(parent);
            let ghost ev = e@;
            self.pending.push(e);
            assert(entry_views(self.pending@) =~= entry_views(start.pending@).push(ev));
            if w.is_dir {
                self.dirs.insert(w.path.as_str(), idx);
                let path = w.path.clone();
                self.pending_dirs.push((path, idx));
                assert(dir_views(self.pending_dirs@) =~= dir_views(start.pending_dirs@).push(
                    (path@, idx),
                ));
                assert(dir_views(self.pending_dirs@).drop_last() =~= dir_views(
                    start.pending_dirs@,
                ));
            }
            assert forall|live: IndexView| live.entries.len() == start.base implies (
            #[trigger] self.ahead(live),
            self.dirs@,
            ) == streamed_one((start.ahead(live), start.dirs@), w@) by {
                assert(live.entries + entry_views(self.pending@) =~= (live.entries + entry_views(
                    start.pending@,
                )).push(ev));
            }
        }
        self.pending.len() >= BATCH
    }

    /// Publishes everything held back.
    pub fn flush_batch(&mut self, live: &mut Index)
        requires
            old(self).wf(),
            old(live).wf(),
            old(live)@.entries.len() == old(self).base_spec(),
        ensures
            final(self).wf(),
            final(live).wf(),
            final(live)@ == old(self).ahead(old(live)@),
            keeps_order(old(live)@.entries, final(live)@.entries),
            final(self).base_spec() == final(live)@.entries.len(),
            final(self).waiting() == 0,
            final(self).known() == old(self).known(),
            final(live)@.entries.len() == old(self).base_spec() + old(self).waiting(),
            final(self).ahead(final(live)@) == final(live)@,
    {
        let ghost v = live@;
        let ghost start = *self;
        let ghost more = entry_views(start.pending@);
        let mut pending: Vec<Entry> = Vec::new();
        std::mem::swap(&mut pending, &mut self.pending);
        let mut dirs: Vec<(String, u32)> = Vec::new();
        std::mem::swap(&mut dirs, &mut self.pending_dirs);
        proof {
            assert(v.entries + more.take(0) =~= v.entries);
        }
        for e in it: pending
            invariant
                live.wf(),
                more == entry_views(it.seq()),
                v.entries.len() + more.len() <= NO_PARENT,
                live@ == (IndexView {
                    entries: v.entries + more.take(it.index() as int),
                    children: children_of(v.entries + more.take(it.index() as int)),
                    ..v
                }),
        {
            proof {
                let i = it.index() as int;
                assert(e@ == more[i]);
                assert(v.entries + more.take(i + 1) =~= (v.entries + more.take(i)).push(e@));
            }
            live.append(e);
        }
        assert(more.take(more.len() as int) =~= more);
        let ghost entries = v.entries + more;
        let ghost list = dir_views(dirs@);
        for i in 0..dirs.len()
            invariant
                live.wf(),
                dirs@ == start.pending_dirs@,
                list == dir_views(dirs@),
                entries == v.entries + entry_views(start.pending@),
                start.wf(),
                v.entries.len() == start.base,
                live@ == (IndexView {
                    entries,
                    children: children_of(entries),
                    dir_map: with_dirs(v.dir_map, list.take(i as int)),
                    ..v
                }),
        {
            proof {
                assert(list.take(i + 1).drop_last() =~= list.take(i as int));
                assert(list.take(i + 1).last() == (dirs@[i as int].0@, dirs@[i as int].1));
                assert(start.pending_dirs@[i as int] == dirs@[i as int]);
                let k = dirs@[i as int].1 - start.base;
                assert(entries[dirs@[i as int].1 as int] == start.pending@[k]@);
                assert(entries[dirs@[i as int].1 as int].dir);
            }
            let ghost before = live@;
            live.dir_map.insert(dirs[i].0.as_str(), dirs[i].1);
            assert forall|k: Seq<char>| #[trigger] live@.dir_map.contains_key(k) implies live@.dir_map[k]
                < live@.entries.len() && live@.entries[live@.dir_map[k] as int].dir by {
                if k != normal(dirs@[i as int].0@) {
                    assert(before.dir_map.contains_key(k));
                }
            }
        }
        assert(list.take(list.len() as int) =~= list);
        self.base = live.entries.len() as u32;
        assert forall|i: int| v.entries.len() <= i < entries.len() implies (#[trigger] entries[i]).parent
            == NO_PARENT || entries[i].parent < i by {
            let k = i - v.entries.len();
            assert(entries[i] == start.pending@[k]@);
            assert(start.pending@[k].parent == NO_PARENT || start.pending@[k].parent < start.base + k);
        }
        assert forall|i: int| 0 <= i < v.entries.len() implies (#[trigger] entries[i])
            == v.entries[i] by {}
        assert(live@.entries + entry_views(self.pending@) =~= live@.entries);
    }
}

proof fn lemma_streamed(v: IndexView, walk: Seq<WalkView>)
    requires
        v.wf(),
        v.entries.len() + walk.len() <= NO_PARENT,
    ensures
        streamed(v, walk).0.entries.len() <= v.entries.len() + walk.len(),
        v.entries.len() <= streamed(v, walk).0.entries.len(),
        v.entries.is_prefix_of(streamed(v, walk).0.entries),
        forall|k: Seq<char>| #[trigger]
            streamed(v, walk).1.contains_key(k) ==> v.entries.len() <= streamed(v, walk).1[k]
                < streamed(v, walk).0.entries.len(),
        keeps_order(v.entries, streamed(v, walk).0.entries),
        streamed(v, walk).0.completed_roots == v.completed_roots,
        streamed(v, walk).0.roots == v.roots,
        streamed(v, walk).0.complete == v.complete,
        streamed(v, walk).0.scanned_at == v.scanned_at,
    decreases walk.len(),
{
    if walk.len() > 0 {
        let front = walk.drop_last();
        lemma_streamed(v, front);
        let before = streamed(v, front);
        let now = streamed(v, walk);
        let w = walk.last();
        if let Some(p) = w.parent_in(before.1) {
            assert(w.depth > 0 ==> before.1.contains_key(normal(w.parent_path)));
            lemma_order_push(before.0.entries, w.entry(p));
            assert(v.entries =~= now.0.entries.subrange(0, v.entries.len() as int));
        }
    }
}

/// Streams one root's walk into the live index in batches.
pub fn stream_root_live(live: &mut Index, walk: &[WalkEntry])
    requires
        old(live).wf(),
        old(live)@.entries.len() + walk@.len() <= NO_PARENT,
    ensures
        final(live).wf(),
        final(live)@ == streamed(old(live)@, walk_views(walk@)).0,
        keeps_order(old(live)@.entries, final(live)@.entries),
{
    let ghost v = live@;
    let ghost all = walk_views(walk@);
    let mut stream = RootStream::start(live.entries.len() as u32);
    for i in 0..walk.len()
        invariant
            live.wf(),
            v.wf(),
            stream.wf(),
            all == walk_views(walk@),
            v.entries.len() + walk@.len() <= NO_PARENT,
            stream.base_spec() == live@.entries.len(),
            (stream.ahead(live@), stream.known()) == streamed(v, all.take(i as int)),
            stream.ahead(live@).entries.len() == stream.base_spec() + stream.waiting(),
    {
        proof {
            lemma_streamed(v, all.take(i as int));
            assert(all.take(i + 1).drop_last() =~= all.take(i as int));
            assert(all.take(i + 1).last() == walk@[i as int]@);
        }
        let full = stream.add(&walk[i]);
        if full {
            stream.flush_batch(live);
        }
        proof {
            stream.lemma_ahead_len(live@);
        }
    }
    stream.flush_batch(live);
    proof {
        assert(all.take(all.len() as int) =~= all);
        lemma_streamed(v, all);
    }
}

impl RootStream {
    proof fn lemma_ahead_len(self, live: IndexView)
        requires
            self.wf(),
            live.entries.len() == self.base_spec(),
        ensures
            self.ahead(live).entries.len() == self.base_spec() + self.waiting(),
    {
    }
}

// ---------------------------------------------------------------------------
// Whole builds
// ---------------------------------------------------------------------------

/// What came of walking one root.
pub struct RootWalk {
    pub entries: Vec<WalkEntry>,
    /// Whether the walk came to its end, as opposed to being cancelled.
    pub finished: bool,
}

/// Number of entries in the first `n` walks.
pub open spec fn total(walks: Seq<RootWalk>, n: nat) -> nat
    decreases n,
{
    if n == 0 {
        0
    } else {
        total(walks, (n - 1) as nat) + walks[n - 1].entries@.len()
    }
}

proof fn lemma_total_grows(walks: Seq<RootWalk>, n: nat, m: nat)
    requires
        n <= m,
    ensures
        total(walks, n) <= total(walks, m),
    decreases m,
{
    if n < m {
        lemma_total_grows(walks, n, (m - 1) as nat);
    }
}

/// The index with a root recorded as finished.
pub open spec fn with_root_done(v: IndexView, root: Seq<char>) -> IndexView {
    IndexView {
        completed_roots: if v.completed_roots.contains(root) {
            v.completed_roots
        } else {
            v.completed_roots.push(root)
        },
        ..v
    }
}

/// Whether every root is recorded as finished.
pub open spec fn all_done(v: IndexView, roots: Seq<Seq<char>>) -> bool {
    forall|i: int| 0 <= i < roots.len() ==> v.completed_roots.contains(#[trigger] roots[i])
}

/// The index at the end of a build: complete once every requested root
/// finished.
pub open spec fn finalized(
    v: IndexView,
    roots: Seq<Seq<char>>,
    cancelled: bool,
    now: i64,
) -> IndexView {
    if !cancelled && all_done(v, roots) {
        IndexView { complete: true, scanned_at: now, ..v }
    } else {
        v
    }
}

/// Records a finished root in the index, so that an interrupted build knows
/// where to resume.
pub fn record_root_done(live: &mut Index, root: &str)
    requires
        old(live).wf(),
    ensures
        final(live).wf(),
        final(live)@ == with_root_done(old(live)@, root@),
{
    if !listed_string(live.completed_roots.as_slice(), root) {
        let ghost before = live.completed_roots@;
        let text = root.to_owned();
        live.completed_roots.push(text);
        assert(views(live.completed_roots@) =~= views(before).push(root@));
    }
    proof {
        lemma_wf_same_links(old(live)@, live@);
    }
}

/// Marks the index complete once every requested root finished.
pub fn finalize_live(live: &mut Index, roots: &[String], cancelled: bool, now: i64)
    requires
        old(live).wf(),
    ensures
        final(live).wf(),
        final(live)@ == finalized(old(live)@, views(roots@), cancelled, now),
{
    if cancelled {
        return ;
    }
    for i in 0..roots.len()
        invariant
            *live == *old(live),
            old(live).wf(),
            forall|j: int|
                0 <= j < i ==> live@.completed_roots.contains(#[trigger] views(roots@)[j]),
    {
        assert(views(roots@)[i as int] == roots@[i as int]@);
        if !listed_string(live.completed_roots.as_slice(), roots[i].as_str()) {
            return ;
        }
    }
    live.complete = true;
    live.scanned_at = now;
    proof {
        lemma_wf_same_links(old(live)@, live@);
    }
}

/// The index after the walks of the first `n` roots.
pub open spec fn scanned(
    v: IndexView,
    roots: Seq<Seq<char>>,
    walks: Seq<RootWalk>,
    n: nat,
) -> IndexView
    decreases n,
{
    if n == 0 {
        v
    } else {
        let before = scanned(v, roots, walks, (n - 1) as nat);
        let after = walked(before, walk_views(walks[n - 1].entries@));
        if walks[n - 1].finished {
            with_root_done(after, roots[n - 1])
        } else {
            after
        }
    }
}

proof fn lemma_scanned_len(v: IndexView, roots: Seq<Seq<char>>, walks: Seq<RootWalk>, n: nat)
    ensures
        scanned(v, roots, walks, n).entries.len() <= v.entries.len() + total(walks, n),
    decreases n,
{
    if n > 0 {
        lemma_scanned_len(v, roots, walks, (n - 1) as nat);
        let before = scanned(v, roots, walks, (n - 1) as nat);
        lemma_walked_len(before, walk_views(walks[n - 1].entries@));
    }
}

/// Copies of a list of strings.
fn copies(list: &[String]) -> (r: Vec<String>)
    ensures
        views(r@) == views(list@),
{
    let mut r: Vec<String> = Vec::new();
    for i in 0..list.len()
        invariant
            views(r@) == views(list@).take(i as int),
    {
        let ghost before = r@;
        let t = list[i].clone();
        r.push(t);
        assert(views(r@) =~= views(before).push(t@));
        assert(views(list@).take(i + 1) =~= views(list@).take(i as int).push(t@));
    }
    assert(views(list@).take(list@.len() as int) =~= views(list@));
    r
}

/// Builds a fresh index of all roots. The walks are those of the roots in
/// order; roots after the last walk were not begun, because the build was
/// cancelled. The partial index is still returned then.
pub fn scan(
    roots: &[String],
    walks: &[RootWalk],
    started: i64,
    ended: i64,
    cancelled: bool,
) -> (index: Index)
    requires
        walks@.len() <= roots@.len(),
        total(walks@, walks@.len()) <= NO_PARENT,
    ensures
        index.wf(),
        ordered(index@.entries),
        index@ == finalized(
            scanned(empty_index(views(roots@), started), views(roots@), walks@, walks@.len()),
            views(roots@),
            cancelled,
            ended,
        ),
{
    let mut index = Index::starting(copies(roots), started);
    let ghost v = index@;
    for i in 0..walks.len()
        invariant
            index.wf(),
            ordered(index@.entries),
            walks@.len() <= roots@.len(),
            total(walks@, walks@.len()) <= NO_PARENT,
            v.entries.len() == 0,
            index@ == scanned(v, views(roots@), walks@, i as nat),
    {
        proof {
            lemma_scanned_len(v, views(roots@), walks@, i as nat);
            lemma_total_grows(walks@, (i + 1) as nat, walks@.len());
        }
        scan_root(&mut index, walks[i].entries.as_slice());
        assert(views(roots@)[i as int] == roots@[i as int]@);
        if walks[i].finished {
            record_root_done(&mut index, roots[i].as_str());
        }
    }
    finalize_live(&mut index, roots, cancelled, ended);
    index
}

/// As `scanned`, streamed.
pub open spec fn stream_scanned(
    v: IndexView,
    roots: Seq<Seq<char>>,
    walks: Seq<RootWalk>,
    n: nat,
) -> IndexView
    decreases n,
{
    if n == 0 {
        v
    } else {
        let before = stream_scanned(v, roots, walks, (n - 1) as nat);
        let after = streamed(before, walk_views(walks[n - 1].entries@)).0;
        if walks[n - 1].finished {
            with_root_done(after, roots[n - 1])
        } else {
            after
        }
    }
}

/// First-run scan: streams entries into the live index in batches. Replaces
/// whatever is in `live`; `scan_resume` continues an interrupted build instead.
pub fn scan_into(
    live: &mut Index,
    roots: &[String],
    walks: &[RootWalk],
    started: i64,
    ended: i64,
    cancelled: bool,
)
    requires
        walks@.len() <= roots@.len(),
        total(walks@, walks@.len()) <= NO_PARENT,
    ensures
        final(live).wf(),
        ordered(final(live)@.entries),
        final(live)@ == finalized(
            stream_scanned(empty_index(views(roots@), started), views(roots@), walks@, walks@.len()),
            views(roots@),
            cancelled,
            ended,
        ),
{
    *live = Index::starting(copies(roots), started);
    let ghost v = live@;
    for i in 0..walks.len()
        invariant
            live.wf(),
            ordered(live@.entries),
            walks@.len() <= roots@.len(),
            total(walks@, walks@.len()) <= NO_PARENT,
            live@.entries.len() <= total(walks@, i as nat),
            live@ == stream_scanned(v, views(roots@), walks@, i as nat),
    {
        proof {
            lemma_total_grows(walks@, (i + 1) as nat, walks@.len());
            lemma_streamed(live@, walk_views(walks@[i as int].entries@));
        }
        stream_root_live(live, walks[i].entries.as_slice());
        assert(views(roots@)[i as int] == roots@[i as int]@);
        if walks[i].finished {
            record_root_done(live, roots[i].as_str());
        }
    }
    finalize_live(live, roots, cancelled, ended);
}

/// One root of a resumed build: what an earlier attempt left of it is dropped,
/// then it is streamed afresh.
pub open spec fn resumed_root(v: IndexView, root: Seq<char>, walk: RootWalk) -> IndexView {
    let after = streamed(purged(v, root), walk_views(walk.entries@)).0;
    if walk.finished {
        with_root_done(after, root)
    } else {
        after
    }
}

/// The index after resuming the first `n` roots: roots in `done` are left as
/// they are.
pub open spec fn resumed(
    v: IndexView,
    roots: Seq<Seq<char>>,
    done: Seq<Seq<char>>,
    walks: Seq<RootWalk>,
    n: nat,
) -> IndexView
    decreases n,
{
    if n == 0 {
        v
    } else {
        let before = resumed(v, roots, done, walks, (n - 1) as nat);
        if done.contains(roots[n - 1]) {
            before
        } else {
            resumed_root(before, roots[n - 1], walks[n - 1])
        }
    }
}

proof fn lemma_purged(v: IndexView, root: Seq<char>)
    requires
        v.wf(),
    ensures
        purged(v, root).wf(),
        keeps_order(v.entries, purged(v, root).entries),
        purged(v, root).entries.len() == v.entries.len(),
{
    let w = purged(v, root);
    crate::index::lemma_children_same(v.entries, w.entries);
    lemma_order_same(v.entries, w.entries);
    assert forall|k: Seq<char>| #[trigger] w.dir_map.contains_key(k) implies w.dir_map[k]
        < w.entries.len() && w.entries[w.dir_map[k] as int].dir by {
        assert(v.dir_map.contains_key(k));
    }
}

/// Continues an interrupted build: roots already marked finished are kept as
/// they are; every other root is purged from the index and streamed again.
pub fn scan_resume(
    live: &mut Index,
    roots: &[String],
    walks: &[RootWalk],
    ended: i64,
    cancelled: bool,
)
    requires
        old(live).wf(),
        walks@.len() <= roots@.len(),
        old(live)@.entries.len() + total(walks@, walks@.len()) <= NO_PARENT,
    ensures
        final(live).wf(),
        keeps_order(old(live)@.entries, final(live)@.entries),
        final(live)@ == finalized(
            resumed(
                IndexView { roots: views(roots@), ..old(live)@ },
                views(roots@),
                old(live)@.completed_roots,
                walks@,
                walks@.len(),
            ),
            views(roots@),
            cancelled,
            ended,
        ),
{
    let done = copies(live.completed_roots.as_slice());
    let ghost start = live@;
    live.roots = copies(roots);
    let ghost v = live@;
    for i in 0..walks.len()
        invariant
            live.wf(),
            keeps_order(start.entries, live@.entries),
            views(done@) == start.completed_roots,
            walks@.len() <= roots@.len(),
            start.entries.len() + total(walks@, walks@.len()) <= NO_PARENT,
            live@.entries.len() <= start.entries.len() + total(walks@, i as nat),
            live@ == resumed(v, views(roots@), start.completed_roots, walks@, i as nat),
    {
        assert(views(roots@)[i as int] == roots@[i as int]@);
        proof {
            lemma_total_grows(walks@, (i + 1) as nat, walks@.len());
        }
        if !listed_string(done.as_slice(), roots[i].as_str()) {
            proof {
                lemma_purged(live@, roots@[i as int]@);
                lemma_streamed(
                    purged(live@, roots@[i as int]@),
                    walk_views(walks@[i as int].entries@),
                );
            }
            live.purge_root(roots[i].as_str());
            stream_root_live(live, walks[i].entries.as_slice());
            if walks[i].finished {
                record_root_done(live, roots[i].as_str());
            }
        }
    }
    finalize_live(live, roots, cancelled, ended);
}

/// The roots of an interrupted build that still have to be walked.
pub fn missing_roots(index: &Index, roots: &[String]) -> (r: Vec<bool>)
    ensures
        r@.len() == roots@.len(),
        forall|i: int|
            0 <= i < roots@.len() ==> #[trigger] r@[i] == !index@.completed_roots.contains(
                roots@[i]@,
            ),
{
    let mut r: Vec<bool> = Vec::new();
    for i in 0..roots.len()
        invariant
            r@.len() == i,
            forall|j: int|
                0 <= j < i ==> #[trigger] r@[j] == !index@.completed_roots.contains(roots@[j]@),
    {
        r.push(!listed_string(index.completed_roots.as_slice(), roots[i].as_str()));
    }
    r
}

// ---------------------------------------------------------------------------
// Laws
// ---------------------------------------------------------------------------

/// Streaming a walk in batches gives the index that scanning it directly gives,
/// where none of the directories that it enters was indexed before.
pub proof fn law_streaming_is_scanning(v: IndexView, walk: Seq<WalkView>)
    requires
        v.entries.len() + walk.len() <= NO_PARENT,
        forall|i: int|
            0 <= i < walk.len() ==> !v.dir_map.contains_key(normal((#[trigger] walk[i]).parent_path)),
    ensures
        streamed(v, walk).0 == walked(v, walk),
{
    lemma_streaming_is_scanning(v, walk);
}

proof fn lemma_streaming_is_scanning(v: IndexView, walk: Seq<WalkView>)
    requires
        v.entries.len() + walk.len() <= NO_PARENT,
        forall|i: int|
            0 <= i < walk.len() ==> !v.dir_map.contains_key(normal((#[trigger] walk[i]).parent_path)),
    ensures
        streamed(v, walk).0 == walked(v, walk),
        forall|k: Seq<char>|
            !v.dir_map.contains_key(k) ==> {
                &&& streamed(v, walk).1.contains_key(k) == #[trigger] walked(
                    v,
                    walk,
                ).dir_map.contains_key(k)
                &&& walked(v, walk).dir_map.contains_key(k) ==> streamed(v, walk).1[k] == walked(
                    v,
                    walk,
                ).dir_map[k]
            },
    decreases walk.len(),
{
    if walk.len() > 0 {
        let front = walk.drop_last();
        assert forall|i: int| 0 <= i < front.len() implies !v.dir_map.contains_key(
            normal((#[trigger] front[i]).parent_path),
        ) by {
            assert(front[i] == walk[i]);
        }
        lemma_streaming_is_scanning(v, front);
        assert(walk[walk.len() - 1] == walk.last());
        let key = normal(walk.last().parent_path);
        assert(!v.dir_map.contains_key(key));
        assert(streamed(v, front).1.contains_key(key) == walked(v, front).dir_map.contains_key(key));
    }
}

/// Whether an entry reports its place as directory walks do: its path is that of
/// its folder with its name appended.
pub open spec fn faithful(w: WalkView) -> bool {
    w.depth > 0 ==> is_plain_name(w.name) && w.path == joined_path(w.parent_path, w.name)
}

/// Whether every entry below the root of the walk comes after its folder.
pub open spec fn parents_first(walk: Seq<WalkView>) -> bool {
    forall|i: int|
        0 <= i < walk.len() && (#[trigger] walk[i]).depth > 0 ==> exists|j: int|
            0 <= j < i && (#[trigger] walk[j]).dir && normal(walk[j].path) == normal(
                walk[i].parent_path,
            )
}

/// Whether the entries from `from` on are those of the walk, in its order, each
/// at the path that the walk found it at. Paths are put together over a bounded
/// chain, so entries below a longer one are left out.
pub open spec fn indexes_all(entries: Seq<EntryView>, from: int, walk: Seq<WalkView>) -> bool {
    &&& entries.len() == from + walk.len()
    &&& forall|i: int|
        0 <= i < walk.len() ==> {
            &&& #[trigger] entries[from + i] == walk[i].entry(entries[from + i].parent)
            &&& walk[i].depth == 0 <==> entries[from + i].parent == NO_PARENT
            &&& reaches_top(entries, from + i, MAX_HOPS as nat) ==> normal(
                path_at(entries, from + i),
            ) == normal(walk[i].path)
        }
}

/// One entry of a walk keeps the map right and lies at its path.
proof fn lemma_walk_step(v: IndexView, known: Map<Seq<char>, u32>, w: WalkView)
    requires
        v.wf(),
        linked(v.entries),
        map_is_right(v),
        known.submap_of(v.dir_map),
        v.entries.len() < NO_PARENT,
        faithful(w),
        w.parent_in(known) is Some,
    ensures
        ({
            let e = w.entry(w.parent_in(known)->0);
            let idx = v.entries.len() as u32;
            let now = IndexView { dir_map: with_dir(v.dir_map, w, idx), ..grown(v, e) };
            &&& now.wf()
            &&& linked(now.entries)
            &&& map_is_right(now)
            &&& with_dir(known, w, idx).submap_of(now.dir_map)
            &&& reaches_top(now.entries, idx as int, MAX_HOPS as nat) ==> normal(
                path_at(now.entries, idx as int),
            ) == normal(w.path)
        }),
{
    let p = w.parent_in(known)->0;
    let e = w.entry(p);
    let idx = v.entries.len() as u32;
    let now = IndexView { dir_map: with_dir(v.dir_map, w, idx), ..grown(v, e) };
    if w.depth > 0 {
        assert(known.dom().contains(normal(w.parent_path)));
        assert(v.dir_map.contains_key(normal(w.parent_path)));
        lemma_join_components(w.parent_path, w.name);
        lemma_child_path(v, e, w.parent_path, w.path);
    } else {
        assert(now.entries[idx as int] == e);
    }
    lemma_order_push(v.entries, e);
    lemma_map_grown(v, now, e, w.path);
    assert forall|k: Seq<char>| #[trigger] now.dir_map.contains_key(k) implies now.dir_map[k]
        < now.entries.len() && now.entries[now.dir_map[k] as int].dir by {
        if !w.dir || k != normal(w.path) {
            assert(v.dir_map.contains_key(k));
        }
    }
    assert forall|k: Seq<char>| #[trigger]
        with_dir(known, w, idx).dom().contains(k) implies now.dir_map.dom().contains(k)
        && now.dir_map[k] == with_dir(known, w, idx)[k] by {
        if !w.dir || k != normal(w.path) {
            assert(known.dom().contains(k));
        }
    }
}

/// What one more entry at its path makes of a walk that is indexed so far.
proof fn lemma_indexes_more(
    entries: Seq<EntryView>,
    from: int,
    walk: Seq<WalkView>,
    e: EntryView,
)
    requires
        walk.len() > 0,
        0 <= from,
        linked(entries),
        indexes_all(entries, from, walk.drop_last()),
        e == walk.last().entry(e.parent),
        walk.last().depth == 0 <==> e.parent == NO_PARENT,
        reaches_top(entries.push(e), entries.len() as int, MAX_HOPS as nat) ==> normal(
            path_at(entries.push(e), entries.len() as int),
        ) == normal(walk.last().path),
    ensures
        indexes_all(entries.push(e), from, walk),
{
    let now = entries.push(e);
    assert forall|i: int| 0 <= i < walk.len() implies {
        &&& #[trigger] now[from + i] == walk[i].entry(now[from + i].parent)
        &&& walk[i].depth == 0 <==> now[from + i].parent == NO_PARENT
        &&& reaches_top(now, from + i, MAX_HOPS as nat) ==> normal(path_at(now, from + i))
            == normal(walk[i].path)
    } by {
        if i < walk.len() - 1 {
            assert(walk.drop_last()[i] == walk[i]);
            assert(now[from + i] == entries[from + i]);
            lemma_path_pushed(entries, e, 0, from + i, MAX_HOPS as nat);
        }
    }
}

proof fn lemma_front_parents_first(walk: Seq<WalkView>)
    requires
        walk.len() > 0,
        parents_first(walk),
    ensures
        parents_first(walk.drop_last()),
{
    let front = walk.drop_last();
    assert forall|i: int| 0 <= i < front.len() && (#[trigger] front[i]).depth > 0 implies exists|
        j: int,
    |
        0 <= j < i && (#[trigger] front[j]).dir && normal(front[j].path) == normal(
            front[i].parent_path,
        ) by {
        assert(walk[i] == front[i]);
        let j = choose|j: int|
            0 <= j < i && (#[trigger] walk[j]).dir && normal(walk[j].path) == normal(
                walk[i].parent_path,
            );
        assert(front[j] == walk[j]);
    }
}

/// The folder of the last entry of a walk is known, once all before it are.
proof fn lemma_last_parent(walk: Seq<WalkView>, known: Map<Seq<char>, u32>)
    requires
        walk.len() > 0,
        parents_first(walk),
        forall|j: int|
            0 <= j < walk.len() - 1 && (#[trigger] walk[j]).dir ==> known.contains_key(
                normal(walk[j].path),
            ),
    ensures
        walk.last().parent_in(known) is Some,
{
    let i = walk.len() - 1;
    if walk[i].depth > 0 {
        let j = choose|j: int|
            0 <= j < i && (#[trigger] walk[j]).dir && normal(walk[j].path) == normal(
                walk[i].parent_path,
            );
        assert(known.contains_key(normal(walk[j].path)));
    }
}

/// Scanning indexes every entry of a walk, at the path that it was found at,
/// and leaves the directory map right.
pub proof fn law_scanning_indexes_the_walk(v: IndexView, walk: Seq<WalkView>)
    requires
        v.wf(),
        linked(v.entries),
        map_is_right(v),
        v.entries.len() + walk.len() <= NO_PARENT,
        parents_first(walk),
        forall|i: int| 0 <= i < walk.len() ==> faithful(#[trigger] walk[i]),
    ensures
        indexes_all(walked(v, walk).entries, v.entries.len() as int, walk),
        map_is_right(walked(v, walk)),
{
    lemma_scanning_indexes(v, walk);
}

proof fn lemma_scanning_indexes(v: IndexView, walk: Seq<WalkView>)
    requires
        v.wf(),
        linked(v.entries),
        map_is_right(v),
        v.entries.len() + walk.len() <= NO_PARENT,
        parents_first(walk),
        forall|i: int| 0 <= i < walk.len() ==> faithful(#[trigger] walk[i]),
    ensures
        indexes_all(walked(v, walk).entries, v.entries.len() as int, walk),
        map_is_right(walked(v, walk)),
        walked(v, walk).wf(),
        linked(walked(v, walk).entries),
        forall|j: int|
            0 <= j < walk.len() && (#[trigger] walk[j]).dir ==> walked(
                v,
                walk,
            ).dir_map.contains_key(normal(walk[j].path)),
    decreases walk.len(),
{
    if walk.len() > 0 {
        let front = walk.drop_last();
        let w = walk.last();
        assert forall|i: int| 0 <= i < front.len() implies faithful(#[trigger] front[i]) by {
            assert(walk[i] == front[i]);
        }
        assert(walk[walk.len() - 1] == w);
        lemma_front_parents_first(walk);
        lemma_scanning_indexes(v, front);
        let before = walked(v, front);
        assert forall|j: int| 0 <= j < walk.len() - 1 && (#[trigger] walk[j]).dir implies
            before.dir_map.contains_key(normal(walk[j].path)) by {
            assert(front[j] == walk[j]);
        }
        lemma_last_parent(walk, before.dir_map);
        lemma_walk_step(before, before.dir_map, w);
        let e = w.entry(w.parent_in(before.dir_map)->0);
        lemma_indexes_more(before.entries, v.entries.len() as int, walk, e);
    }
}

/// Streaming indexes every entry of a walk at its path too.
pub proof fn law_streaming_indexes_the_walk(v: IndexView, walk: Seq<WalkView>)
    requires
        v.wf(),
        linked(v.entries),
        map_is_right(v),
        v.entries.len() + walk.len() <= NO_PARENT,
        parents_first(walk),
        forall|i: int| 0 <= i < walk.len() ==> faithful(#[trigger] walk[i]),
    ensures
        indexes_all(streamed(v, walk).0.entries, v.entries.len() as int, walk),
        map_is_right(streamed(v, walk).0),
{
    lemma_streaming_indexes(v, walk);
}

proof fn lemma_streaming_indexes(v: IndexView, walk: Seq<WalkView>)
    requires
        v.wf(),
        linked(v.entries),
        map_is_right(v),
        v.entries.len() + walk.len() <= NO_PARENT,
        parents_first(walk),
        forall|i: int| 0 <= i < walk.len() ==> faithful(#[trigger] walk[i]),
    ensures
        indexes_all(streamed(v, walk).0.entries, v.entries.len() as int, walk),
        map_is_right(streamed(v, walk).0),
        streamed(v, walk).0.wf(),
        linked(streamed(v, walk).0.entries),
        streamed(v, walk).1.submap_of(streamed(v, walk).0.dir_map),
        forall|j: int|
            0 <= j < walk.len() && (#[trigger] walk[j]).dir ==> streamed(v, walk).1.contains_key(
                normal(walk[j].path),
            ),
    decreases walk.len(),
{
    if walk.len() > 0 {
        let front = walk.drop_last();
        let w = walk.last();
        assert forall|i: int| 0 <= i < front.len() implies faithful(#[trigger] front[i]) by {
            assert(walk[i] == front[i]);
        }
        assert(walk[walk.len() - 1] == w);
        lemma_front_parents_first(walk);
        lemma_streaming_indexes(v, front);
        let (before, known) = streamed(v, front);
        assert forall|j: int| 0 <= j < walk.len() - 1 && (#[trigger] walk[j]).dir implies
            known.contains_key(normal(walk[j].path)) by {
            assert(front[j] == walk[j]);
        }
        lemma_last_parent(walk, known);
        if w.depth > 0 {
            assert(known.dom().contains(normal(w.parent_path)));
            assert(before.dir_map.contains_key(normal(w.parent_path)));
        }
        lemma_walk_step(before, known, w);
        let e = w.entry(w.parent_in(known)->0);
        lemma_indexes_more(before.entries, v.entries.len() as int, walk, e);
    }
}

/// Streaming only appends: what was indexed before stays as it was.
pub proof fn law_streaming_appends(v: IndexView, walk: Seq<WalkView>)
    requires
        v.wf(),
        v.entries.len() + walk.len() <= NO_PARENT,
    ensures
        v.entries.is_prefix_of(streamed(v, walk).0.entries),
        streamed(v, walk).0.completed_roots == v.completed_roots,
{
    lemma_streamed(v, walk);
}

/// Resuming does not touch roots that are finished: with nothing left to do, the
/// entries and directories stay as they are.
pub proof fn law_resume_keeps_finished_roots(
    v: IndexView,
    roots: Seq<Seq<char>>,
    walks: Seq<RootWalk>,
    n: nat,
)
    requires
        n <= roots.len(),
        forall|i: int| 0 <= i < n ==> v.completed_roots.contains(#[trigger] roots[i]),
    ensures
        resumed(v, roots, v.completed_roots, walks, n) == v,
    decreases n,
{
    if n > 0 {
        law_resume_keeps_finished_roots(v, roots, walks, (n - 1) as nat);
        assert(v.completed_roots.contains(roots[n - 1]));
    }
}

/// Resuming one root leaves every entry that is not below that root's directory
/// as it was, marks those below it deleted, and appends the rest.
pub proof fn law_resume_replaces_one_root(v: IndexView, root: Seq<char>, walk: RootWalk, j: int)
    requires
        v.wf(),
        v.entries.len() + walk.entries@.len() <= NO_PARENT,
        0 <= j < v.entries.len(),
    ensures
        ({
            let now = resumed_root(v, root, walk).entries[j];
            if v.dir_map.contains_key(normal(root)) && crate::index::below(
                v.entries,
                v.dir_map[normal(root)] as int,
                j,
            ) {
                now == EntryView { deleted: true, ..v.entries[j] }
            } else {
                now == v.entries[j]
            }
        }),
        walk.finished ==> resumed_root(v, root, walk).completed_roots.contains(root),
{
    lemma_purged(v, root);
    let p = purged(v, root);
    lemma_streamed(p, walk_views(walk.entries@));
    let s = streamed(p, walk_views(walk.entries@)).0;
    assert(p.entries == s.entries.subrange(0, p.entries.len() as int));
    assert(s.entries[j] == p.entries[j]);
    if walk.finished {
        let after = with_root_done(s, root);
        if !s.completed_roots.contains(root) {
            assert(after.completed_roots[s.completed_roots.len() as int] == root);
        }
    }
}

/// A build is marked complete only when every requested root finished.
pub proof fn law_complete_means_every_root(
    v: IndexView,
    roots: Seq<Seq<char>>,
    cancelled: bool,
    now: i64,
)
    requires
        !v.complete,
    ensures
        finalized(v, roots, cancelled, now).complete <==> !cancelled && all_done(v, roots),
{
}

proof fn lemma_walking_keeps_roots(v: IndexView, walk: Seq<WalkView>)
    ensures
        walked(v, walk).completed_roots == v.completed_roots,
        streamed(v, walk).0.completed_roots == v.completed_roots,
    decreases walk.len(),
{
    if walk.len() > 0 {
        lemma_walking_keeps_roots(v, walk.drop_last());
    }
}

proof fn lemma_root_recorded(v: IndexView, root: Seq<char>, other: Seq<char>)
    ensures
        with_root_done(v, root).completed_roots.contains(root),
        v.completed_roots.contains(other) ==> with_root_done(v, root).completed_roots.contains(
            other,
        ),
{
    let before = v.completed_roots;
    let now = with_root_done(v, root).completed_roots;
    if !before.contains(root) {
        assert(now[before.len() as int] == root);
    }
    if before.contains(other) {
        let i = choose|i: int| 0 <= i < before.len() && before[i] == other;
        assert(now[i] == other);
    }
}

proof fn lemma_without(list: Seq<Seq<char>>, x: Seq<char>, y: Seq<char>)
    requires
        list.contains(y),
        x != y,
    ensures
        without(list, x).contains(y),
    decreases list.len(),
{
    let front = list.drop_last();
    let now = without(list, x);
    let i = choose|i: int| 0 <= i < list.len() && list[i] == y;
    if i < front.len() {
        assert(front[i] == y);
        lemma_without(front, x, y);
        let before = without(front, x);
        let j = choose|j: int| 0 <= j < before.len() && before[j] == y;
        assert(now[j] == y);
    } else {
        assert(now.last() == y);
    }
}

proof fn lemma_scans_record(
    v: IndexView,
    roots: Seq<Seq<char>>,
    walks: Seq<RootWalk>,
    n: nat,
    i: int,
)
    requires
        0 <= i < n <= walks.len(),
        forall|k: int| 0 <= k < n ==> (#[trigger] walks[k]).finished,
    ensures
        scanned(v, roots, walks, n).completed_roots.contains(roots[i]),
        stream_scanned(v, roots, walks, n).completed_roots.contains(roots[i]),
    decreases n,
{
    let m = (n - 1) as nat;
    let walk = walk_views(walks[m as int].entries@);
    let a = scanned(v, roots, walks, m);
    let b = stream_scanned(v, roots, walks, m);
    lemma_walking_keeps_roots(a, walk);
    lemma_walking_keeps_roots(b, walk);
    lemma_root_recorded(walked(a, walk), roots[m as int], roots[i]);
    lemma_root_recorded(streamed(b, walk).0, roots[m as int], roots[i]);
    if i < m {
        lemma_scans_record(v, roots, walks, m, i);
    }
}

proof fn lemma_resuming_records(
    v: IndexView,
    roots: Seq<Seq<char>>,
    done: Seq<Seq<char>>,
    walks: Seq<RootWalk>,
    n: nat,
    x: Seq<char>,
)
    requires
        n <= walks.len(),
        forall|k: int|
            0 <= k < n ==> done.contains(#[trigger] roots[k]) || walks[k].finished,
        done.contains(x) && v.completed_roots.contains(x) || exists|k: int|
            0 <= k < n && #[trigger] roots[k] == x && !done.contains(x),
    ensures
        resumed(v, roots, done, walks, n).completed_roots.contains(x),
    decreases n,
{
    if n > 0 {
        let m = (n - 1) as nat;
        let root = roots[m as int];
        let before = resumed(v, roots, done, walks, m);
        if done.contains(root) {
            lemma_resuming_records(v, roots, done, walks, m, x);
        } else {
            let clean = purged(before, root);
            let walk = walk_views(walks[m as int].entries@);
            lemma_walking_keeps_roots(clean, walk);
            lemma_root_recorded(streamed(clean, walk).0, root, x);
            if x != root {
                lemma_resuming_records(v, roots, done, walks, m, x);
                lemma_without(before.completed_roots, root, x);
            }
        }
    }
}

proof fn lemma_walks_keep_roots(v: IndexView, walk: Seq<WalkView>)
    ensures
        walked(v, walk).roots == v.roots,
        streamed(v, walk).0.roots == v.roots,
    decreases walk.len(),
{
    if walk.len() > 0 {
        lemma_walks_keep_roots(v, walk.drop_last());
    }
}

proof fn lemma_scans_keep_roots(
    v: IndexView,
    roots: Seq<Seq<char>>,
    walks: Seq<RootWalk>,
    n: nat,
)
    ensures
        scanned(v, roots, walks, n).roots == v.roots,
        stream_scanned(v, roots, walks, n).roots == v.roots,
    decreases n,
{
    if n > 0 {
        let m = (n - 1) as nat;
        let walk = walk_views(walks[n - 1].entries@);
        lemma_scans_keep_roots(v, roots, walks, m);
        lemma_walks_keep_roots(scanned(v, roots, walks, m), walk);
        lemma_walks_keep_roots(stream_scanned(v, roots, walks, m), walk);
    }
}

/// A build that walked every root to its end is complete, and with refreshing
/// switched off no later launch scans again.
pub proof fn law_finished_build_is_used_as_it_is(
    v: IndexView,
    roots: Seq<Seq<char>>,
    walks: Seq<RootWalk>,
    ended: i64,
    later: int,
)
    requires
        walks.len() == roots.len(),
        forall|k: int| 0 <= k < walks.len() ==> (#[trigger] walks[k]).finished,
    ensures
        ({
            let a = finalized(scanned(v, roots, walks, walks.len()), roots, false, ended);
            let b = finalized(stream_scanned(v, roots, walks, walks.len()), roots, false, ended);
            &&& a.complete && b.complete
            &&& a.roots == v.roots && b.roots == v.roots
            &&& plan_of(a.complete, a.scanned_at as int, later, 0) == LaunchPlan::UseAsIs
            &&& plan_of(b.complete, b.scanned_at as int, later, 0) == LaunchPlan::UseAsIs
        }),
{
    let n = walks.len();
    assert forall|i: int| 0 <= i < roots.len() implies scanned(
        v,
        roots,
        walks,
        n,
    ).completed_roots.contains(#[trigger] roots[i]) && stream_scanned(
        v,
        roots,
        walks,
        n,
    ).completed_roots.contains(roots[i]) by {
        lemma_scans_record(v, roots, walks, n, i);
    }
    lemma_scans_keep_roots(v, roots, walks, n);
}

/// An interrupted build that is resumed, and whose missing roots are all walked
/// to their end, is complete as well.
pub proof fn law_resumed_build_is_used_as_it_is(
    v: IndexView,
    roots: Seq<Seq<char>>,
    walks: Seq<RootWalk>,
    ended: i64,
    later: int,
)
    requires
        walks.len() == roots.len(),
        forall|k: int|
            0 <= k < walks.len() ==> v.completed_roots.contains(#[trigger] roots[k])
                || walks[k].finished,
    ensures
        ({
            let r = finalized(
                resumed(v, roots, v.completed_roots, walks, walks.len()),
                roots,
                false,
                ended,
            );
            &&& r.complete
            &&& plan_of(r.complete, r.scanned_at as int, later, 0) == LaunchPlan::UseAsIs
        }),
{
    let n = walks.len();
    let r = resumed(v, roots, v.completed_roots, walks, n);
    assert forall|i: int| 0 <= i < roots.len() implies r.completed_roots.contains(
        #[trigger] roots[i],
    ) by {
        lemma_resuming_records(v, roots, v.completed_roots, walks, n, roots[i]);
    }
}

/// Whether an entry tells what a walk found: a file with its length, a directory
/// without one, both with the time of their last change, or with zeros where the
/// walk could not read them. The root of the walk has its path for a name and
/// nothing above it.
pub open spec fn tells_of(e: EntryView, w: WalkEntry) -> bool {
    &&& e.dir == w.is_dir
    &&& w.stat matches Some((len, modified)) ==> e.modified == modified && (w.is_dir ==> e.size
        == 0) && (!w.is_dir ==> e.size == len)
    &&& w.stat is None ==> e.size == 0 && e.modified == 0
    &&& w.depth == 0 ==> e.name == w.path@ && e.parent == 0xffff_ffff
    &&& w.depth > 0 ==> e.name == w.name@ && e.parent != 0xffff_ffff
}

/// Whether walks come as directory walks do: every entry after its folder, and
/// with its folder's path and its name for a path.
pub open spec fn well_walked(walk: Seq<WalkEntry>) -> bool {
    &&& forall|i: int|
        0 <= i < walk.len() && (#[trigger] walk[i]).depth > 0 ==> exists|j: int|
            0 <= j < i && (#[trigger] walk[j]).is_dir && normal(walk[j].path@) == normal(
                walk[i].parent_path@,
            )
    &&& forall|i: int|
        0 <= i < walk.len() && (#[trigger] walk[i]).depth > 0 ==> is_plain_name(walk[i].name@)
            && walk[i].path@ == joined_path(walk[i].parent_path@, walk[i].name@)
}

proof fn lemma_well_walked(walk: Seq<WalkEntry>)
    requires
        well_walked(walk),
    ensures
        parents_first(walk_views(walk)),
        forall|i: int| 0 <= i < walk.len() ==> faithful(#[trigger] walk_views(walk)[i]),
{
    let all = walk_views(walk);
    assert forall|i: int| 0 <= i < all.len() && (#[trigger] all[i]).depth > 0 implies exists|j: int|
        0 <= j < i && (#[trigger] all[j]).dir && normal(all[j].path) == normal(
            all[i].parent_path,
        ) by {
        assert(walk[i].depth > 0);
        let j = choose|j: int|
            0 <= j < i && (#[trigger] walk[j]).is_dir && normal(walk[j].path@) == normal(
                walk[i].parent_path@,
            );
        assert(all[j] == walk[j]@);
    }
    assert forall|i: int| 0 <= i < walk.len() implies faithful(#[trigger] all[i]) by {
        assert(all[i] == walk[i]@);
    }
}

/// Scanning a root and streaming it put every entry of the walk into the index:
/// live, with the numbers that the walk read, and at its path. What was indexed
/// before stays in front of them.
pub proof fn law_walked_files_keep_their_numbers(v: IndexView, walk: Seq<WalkEntry>, i: int)
    requires
        v.wf(),
        linked(v.entries),
        map_is_right(v),
        v.entries.len() + walk.len() <= NO_PARENT,
        well_walked(walk),
        0 <= i < walk.len(),
    ensures
        ({
            let at = v.entries.len() + i;
            let a = walked(v, walk_views(walk)).entries;
            let b = streamed(v, walk_views(walk)).0.entries;
            &&& a.len() == v.entries.len() + walk.len()
            &&& b.len() == v.entries.len() + walk.len()
            &&& tells_of(a[at], walk[i]) && !a[at].deleted
            &&& tells_of(b[at], walk[i]) && !b[at].deleted
            &&& reaches_top(a, at, 256) ==> normal(path_at(a, at)) == normal(walk[i].path@)
            &&& reaches_top(b, at, 256) ==> normal(path_at(b, at)) == normal(walk[i].path@)
            &&& v.entries.is_prefix_of(a)
            &&& v.entries.is_prefix_of(b)
        }),
{
    let all = walk_views(walk);
    lemma_well_walked(walk);
    lemma_scanning_indexes(v, all);
    lemma_streaming_indexes(v, all);
    lemma_streamed(v, all);
    lemma_walked_appends(v, all);
    assert(all[i] == walk[i]@);
    let at = v.entries.len() + i;
    let a = walked(v, all).entries;
    let b = streamed(v, all).0.entries;
    assert(a[at] == all[i].entry(a[at].parent));
    assert(b[at] == all[i].entry(b[at].parent));
}

proof fn lemma_walked_appends(v: IndexView, walk: Seq<WalkView>)
    ensures
        v.entries.is_prefix_of(walked(v, walk).entries),
    decreases walk.len(),
{
    if walk.len() > 0 {
        lemma_walked_appends(v, walk.drop_last());
        let before = walked(v, walk.drop_last()).entries;
        assert(v.entries == before.subrange(0, v.entries.len() as int));
        assert(v.entries =~= walked(v, walk).entries.subrange(0, v.entries.len() as int));
    }
}

/// Nothing else enters the index: whatever scanning or streaming a root adds
/// tells of an entry of the walk, and is live.
pub proof fn law_scanning_adds_what_was_walked(v: IndexView, walk: Seq<WalkEntry>, j: int)
    requires
        v.wf(),
        v.entries.len() + walk.len() <= NO_PARENT,
    ensures
        v.entries.len() <= j < walked(v, walk_views(walk)).entries.len() ==> {
            let e = walked(v, walk_views(walk)).entries[j];
            !e.deleted && exists|i: int| 0 <= i < walk.len() && tells_of(e, #[trigger] walk[i])
        },
        v.entries.len() <= j < streamed(v, walk_views(walk)).0.entries.len() ==> {
            let e = streamed(v, walk_views(walk)).0.entries[j];
            !e.deleted && exists|i: int| 0 <= i < walk.len() && tells_of(e, #[trigger] walk[i])
        },
{
    lemma_walked_told(v, walk, j);
    lemma_streamed_told(v, walk, j);
}

proof fn lemma_walked_told(v: IndexView, walk: Seq<WalkEntry>, j: int)
    requires
        v.wf(),
        v.entries.len() + walk.len() <= NO_PARENT,
    ensures
        forall|k: Seq<char>| #[trigger]
            walked(v, walk_views(walk)).dir_map.contains_key(k) ==> walked(
                v,
                walk_views(walk),
            ).dir_map[k] < walked(v, walk_views(walk)).entries.len(),
        v.entries.len() <= j < walked(v, walk_views(walk)).entries.len() ==> {
            let e = walked(v, walk_views(walk)).entries[j];
            !e.deleted && exists|i: int| 0 <= i < walk.len() && tells_of(e, #[trigger] walk[i])
        },
    decreases walk.len(),
{
    let all = walk_views(walk);
    if walk.len() > 0 {
        let front = walk.drop_last();
        lemma_walked_told(v, front, j);
        assert(all.drop_last() =~= walk_views(front));
        assert(all.last() == walk.last()@);
        let before = walked(v, walk_views(front));
        lemma_walked_len(v, walk_views(front));
        if v.entries.len() <= j < before.entries.len() {
            let i = choose|i: int|
                0 <= i < front.len() && tells_of(before.entries[j], #[trigger] front[i]);
            assert(tells_of(before.entries[j], walk[i]));
        } else if j == before.entries.len() && j < walked(v, all).entries.len() {
            assert(tells_of(walked(v, all).entries[j], walk[walk.len() - 1]));
        }
    }
}

proof fn lemma_streamed_told(v: IndexView, walk: Seq<WalkEntry>, j: int)
    requires
        v.wf(),
        v.entries.len() + walk.len() <= NO_PARENT,
    ensures
        v.entries.len() <= j < streamed(v, walk_views(walk)).0.entries.len() ==> {
            let e = streamed(v, walk_views(walk)).0.entries[j];
            !e.deleted && exists|i: int| 0 <= i < walk.len() && tells_of(e, #[trigger] walk[i])
        },
    decreases walk.len(),
{
    let all = walk_views(walk);
    if walk.len() > 0 {
        let front = walk.drop_last();
        lemma_streamed_told(v, front, j);
        assert(all.drop_last() =~= walk_views(front));
        assert(all.last() == walk.last()@);
        let before = streamed(v, walk_views(front)).0;
        lemma_streamed(v, walk_views(front));
        if v.entries.len() <= j < before.entries.len() {
            let i = choose|i: int|
                0 <= i < front.len() && tells_of(before.entries[j], #[trigger] front[i]);
            assert(tells_of(before.entries[j], walk[i]));
        } else if j == before.entries.len() && j < streamed(v, all).0.entries.len() {
            assert(tells_of(streamed(v, all).0.entries[j], walk[walk.len() - 1]));
        }
    }
}

/// What a build has made of the walks of several roots: the entries of the walk
/// of root `r` stand behind those of the roots before it, each with the numbers
/// that the walk read, and at its path.
pub proof fn law_builds_keep_the_numbers_of_every_root(
    v: IndexView,
    roots: Seq<Seq<char>>,
    walks: Seq<RootWalk>,
    cancelled: bool,
    now: i64,
    r: int,
    i: int,
)
    requires
        v.wf(),
        linked(v.entries),
        map_is_right(v),
        v.entries.len() + total(walks, walks.len()) <= NO_PARENT,
        forall|k: int| 0 <= k < walks.len() ==> well_walked((#[trigger] walks[k]).entries@),
        0 <= r < walks.len(),
        0 <= i < walks[r].entries@.len(),
    ensures
        ({
            let at = v.entries.len() + total(walks, r as nat) + i;
            let w = walks[r].entries@[i];
            let n = walks.len();
            let a = finalized(scanned(v, roots, walks, n), roots, cancelled, now).entries;
            let b = finalized(stream_scanned(v, roots, walks, n), roots, cancelled, now).entries;
            &&& a.len() == v.entries.len() + total(walks, n)
            &&& b.len() == v.entries.len() + total(walks, n)
            &&& tells_of(a[at], w) && !a[at].deleted
            &&& tells_of(b[at], w) && !b[at].deleted
            &&& reaches_top(a, at, 256) ==> normal(path_at(a, at)) == normal(w.path@)
            &&& reaches_top(b, at, 256) ==> normal(path_at(b, at)) == normal(w.path@)
        }),
{
    lemma_total_grows(walks, (r + 1) as nat, walks.len());
    lemma_scans_keep_numbers(v, roots, walks, walks.len(), r, i);
    lemma_streams_keep_numbers(v, roots, walks, walks.len(), r, i);
}

/// A path stays what it is when entries are appended.
proof fn lemma_path_prefix(a: Seq<EntryView>, b: Seq<EntryView>, i: int, n: nat)
    requires
        linked(a),
        a.is_prefix_of(b),
        0 <= i < a.len(),
    ensures
        reaches_top(a, i, n) == reaches_top(b, i, n),
        path_within(a, i, n) == path_within(b, i, n),
    decreases n,
{
    assert(a == b.subrange(0, a.len() as int));
    assert(a[i] == b[i]);
    let p = a[i].parent;
    if has_dir_parent(a, a[i]) || has_dir_parent(b, b[i]) {
        assert(p < a.len());
        assert(a[p as int] == b[p as int]);
        if n > 0 {
            lemma_path_prefix(a, b, p as int, (n - 1) as nat);
        }
    }
}

proof fn lemma_scans_keep_numbers(
    v: IndexView,
    roots: Seq<Seq<char>>,
    walks: Seq<RootWalk>,
    n: nat,
    r: int,
    i: int,
)
    requires
        v.wf(),
        linked(v.entries),
        map_is_right(v),
        n <= walks.len(),
        v.entries.len() + total(walks, n) <= NO_PARENT,
        forall|k: int| 0 <= k < walks.len() ==> well_walked((#[trigger] walks[k]).entries@),
    ensures
        ({
            let at = v.entries.len() + total(walks, r as nat) + i;
            let x = scanned(v, roots, walks, n);
            let a = x.entries;
            &&& x.wf()
            &&& linked(a)
            &&& map_is_right(x)
            &&& a.len() == v.entries.len() + total(walks, n)
            &&& 0 <= r < n && 0 <= i < walks[r].entries@.len() ==> {
                let w = walks[r].entries@[i];
                &&& at < a.len()
                &&& tells_of(a[at], w) && !a[at].deleted
                &&& reaches_top(a, at, 256) ==> normal(path_at(a, at)) == normal(w.path@)
            }
        }),
    decreases n,
{
    if n > 0 {
        let m = (n - 1) as nat;
        lemma_scans_keep_numbers(v, roots, walks, m, r, i);
        let before = scanned(v, roots, walks, m);
        let walk = walks[m as int].entries@;
        let all = walk_views(walk);
        assert(well_walked(walks[m as int].entries@));
        lemma_well_walked(walk);
        lemma_scanning_indexes(before, all);
        let after = walked(before, all);
        lemma_wf_same_links(after, scanned(v, roots, walks, n));
        lemma_walked_appends(before, all);
        if 0 <= r < n && 0 <= i < walks[r].entries@.len() {
            let at = v.entries.len() + total(walks, r as nat) + i;
            if r == m {
                law_walked_files_keep_their_numbers(before, walk, i);
            } else {
                lemma_total_grows(walks, (r + 1) as nat, m);
                lemma_path_prefix(before.entries, after.entries, at, 256);
                assert(before.entries == after.entries.subrange(0, before.entries.len() as int));
                assert(after.entries[at] == before.entries[at]);
            }
        }
    }
}

proof fn lemma_streams_keep_numbers(
    v: IndexView,
    roots: Seq<Seq<char>>,
    walks: Seq<RootWalk>,
    n: nat,
    r: int,
    i: int,
)
    requires
        v.wf(),
        linked(v.entries),
        map_is_right(v),
        n <= walks.len(),
        v.entries.len() + total(walks, n) <= NO_PARENT,
        forall|k: int| 0 <= k < walks.len() ==> well_walked((#[trigger] walks[k]).entries@),
    ensures
        ({
            let at = v.entries.len() + total(walks, r as nat) + i;
            let x = stream_scanned(v, roots, walks, n);
            let a = x.entries;
            &&& x.wf()
            &&& linked(a)
            &&& map_is_right(x)
            &&& a.len() == v.entries.len() + total(walks, n)
            &&& 0 <= r < n && 0 <= i < walks[r].entries@.len() ==> {
                let w = walks[r].entries@[i];
                &&& at < a.len()
                &&& tells_of(a[at], w) && !a[at].deleted
                &&& reaches_top(a, at, 256) ==> normal(path_at(a, at)) == normal(w.path@)
            }
        }),
    decreases n,
{
    if n > 0 {
        let m = (n - 1) as nat;
        lemma_streams_keep_numbers(v, roots, walks, m, r, i);
        let before = stream_scanned(v, roots, walks, m);
        let walk = walks[m as int].entries@;
        let all = walk_views(walk);
        assert(well_walked(walks[m as int].entries@));
        lemma_well_walked(walk);
        lemma_streaming_indexes(before, all);
        let after = streamed(before, all).0;
        lemma_wf_same_links(after, stream_scanned(v, roots, walks, n));
        lemma_streamed(before, all);
        if 0 <= r < n && 0 <= i < walks[r].entries@.len() {
            let at = v.entries.len() + total(walks, r as nat) + i;
            if r == m {
                law_walked_files_keep_their_numbers(before, walk, i);
            } else {
                lemma_total_grows(walks, (r + 1) as nat, m);
                lemma_path_prefix(before.entries, after.entries, at, 256);
                assert(before.entries == after.entries.subrange(0, before.entries.len() as int));
                assert(after.entries[at] == before.entries[at]);
            }
        }
    }
}

/// Resuming a root puts every entry of its new walk into the index: live, with
/// the numbers that the walk read, and at its path.
pub proof fn law_resumed_files_keep_their_numbers(
    v: IndexView,
    root: Seq<char>,
    walk: RootWalk,
    i: int,
)
    requires
        v.wf(),
        linked(v.entries),
        map_is_right(v),
        v.entries.len() + walk.entries@.len() <= NO_PARENT,
        well_walked(walk.entries@),
        0 <= i < walk.entries@.len(),
    ensures
        ({
            let at = v.entries.len() + i;
            let w = walk.entries@[i];
            let a = resumed_root(v, root, walk).entries;
            &&& a.len() == v.entries.len() + walk.entries@.len()
            &&& tells_of(a[at], w) && !a[at].deleted
            &&& reaches_top(a, at, 256) ==> normal(path_at(a, at)) == normal(w.path@)
        }),
{
    lemma_purged(v, root);
    let p = purged(v, root);
    lemma_map_kept(v, p);
    law_walked_files_keep_their_numbers(p, walk.entries@, i);
}

/// A resumed build holds the numbers of every root that it walked: an entry with
/// them stands behind those that were there before.
pub proof fn law_resumed_builds_keep_the_numbers(
    v: IndexView,
    roots: Seq<Seq<char>>,
    walks: Seq<RootWalk>,
    cancelled: bool,
    now: i64,
    r: int,
    i: int,
)
    requires
        v.wf(),
        linked(v.entries),
        map_is_right(v),
        walks.len() <= roots.len(),
        v.entries.len() + total(walks, walks.len()) <= NO_PARENT,
        forall|k: int| 0 <= k < walks.len() ==> well_walked((#[trigger] walks[k]).entries@),
        0 <= r < walks.len(),
        !v.completed_roots.contains(roots[r]),
        0 <= i < walks[r].entries@.len(),
    ensures
        ({
            let a = finalized(
                resumed(v, roots, v.completed_roots, walks, walks.len()),
                roots,
                cancelled,
                now,
            ).entries;
            exists|j: int|
                v.entries.len() <= j < a.len() && tells_of(#[trigger] a[j], walks[r].entries@[i])
                    && (r == walks.len() - 1 ==> !a[j].deleted)
        }),
{
    lemma_resuming_keeps_numbers(v, roots, v.completed_roots, walks, walks.len(), r, i);
    let x = resumed(v, roots, v.completed_roots, walks, walks.len());
    let a = finalized(x, roots, cancelled, now).entries;
    let j = choose|j: int|
        v.entries.len() <= j < x.entries.len() && tells_of(
            #[trigger] x.entries[j],
            walks[r].entries@[i],
        ) && (r == walks.len() - 1 ==> !x.entries[j].deleted);
    assert(tells_of(a[j], walks[r].entries@[i]));
}

proof fn lemma_resuming_keeps_numbers(
    v: IndexView,
    roots: Seq<Seq<char>>,
    done: Seq<Seq<char>>,
    walks: Seq<RootWalk>,
    n: nat,
    r: int,
    i: int,
)
    requires
        v.wf(),
        linked(v.entries),
        map_is_right(v),
        n <= walks.len() <= roots.len(),
        v.entries.len() + total(walks, n) <= NO_PARENT,
        forall|k: int| 0 <= k < walks.len() ==> well_walked((#[trigger] walks[k]).entries@),
    ensures
        ({
            let x = resumed(v, roots, done, walks, n);
            &&& x.wf()
            &&& linked(x.entries)
            &&& map_is_right(x)
            &&& v.entries.len() <= x.entries.len() <= v.entries.len() + total(walks, n)
            &&& 0 <= r < n && 0 <= i < walks[r].entries@.len() && !done.contains(roots[r])
                ==> exists|j: int|
                v.entries.len() <= j < x.entries.len() && tells_of(
                    #[trigger] x.entries[j],
                    walks[r].entries@[i],
                ) && (r == n - 1 ==> !x.entries[j].deleted)
        }),
    decreases n,
{
    if n > 0 {
        let m = (n - 1) as nat;
        lemma_resuming_keeps_numbers(v, roots, done, walks, m, r, i);
        let before = resumed(v, roots, done, walks, m);
        if !done.contains(roots[m as int]) {
            let root = roots[m as int];
            let walk = walks[m as int].entries@;
            let all = walk_views(walk);
            assert(well_walked(walks[m as int].entries@));
            lemma_well_walked(walk);
            lemma_purged(before, root);
            let p = purged(before, root);
            lemma_map_kept(before, p);
            lemma_streaming_indexes(p, all);
            lemma_streamed(p, all);
            let after = streamed(p, all).0;
            let x = resumed(v, roots, done, walks, n);
            lemma_wf_same_links(after, x);
            if 0 <= r < n && 0 <= i < walks[r].entries@.len() && !done.contains(roots[r]) {
                if r == m {
                    law_walked_files_keep_their_numbers(p, walk, i);
                    assert(tells_of(x.entries[p.entries.len() + i], walk[i]));
                } else {
                    let j = choose|j: int|
                        v.entries.len() <= j < before.entries.len() && tells_of(
                            #[trigger] before.entries[j],
                            walks[r].entries@[i],
                        ) && (r == m - 1 ==> !before.entries[j].deleted);
                    assert(p.entries == after.entries.subrange(0, p.entries.len() as int));
                    assert(x.entries[j] == p.entries[j]);
                    assert(tells_of(x.entries[j], walks[r].entries@[i]));
                }
            }
        }
    }
}

/// A build that is not complete keeps the time at which it started, and one that is
/// has the time at which it ended. What was indexed is not touched by ending it.
pub proof fn law_complete_builds_are_dated(
    v: IndexView,
    roots: Seq<Seq<char>>,
    cancelled: bool,
    now: i64,
)
    requires
        !v.complete,
    ensures
        ({
            let done = finalized(v, roots, cancelled, now);
            &&& done.complete ==> done.scanned_at == now
            &&& !done.complete ==> done == v
            &&& done.entries == v.entries
            &&& done.dir_map == v.dir_map
            &&& done.completed_roots == v.completed_roots
            &&& cancelled ==> !done.complete
            &&& done.complete ==> forall|i: int|
                0 <= i < roots.len() ==> v.completed_roots.contains(#[trigger] roots[i])
        }),
{
}

/// A root is recorded as finished only if its walk came to its end: one that was
/// cancelled is walked again.
pub proof fn law_cancelled_roots_are_not_finished(
    v: IndexView,
    roots: Seq<Seq<char>>,
    walks: Seq<RootWalk>,
    n: nat,
    root: Seq<char>,
)
    requires
        n <= walks.len() <= roots.len(),
        !v.completed_roots.contains(root),
        forall|k: int| 0 <= k < n && #[trigger] roots[k] == root ==> !walks[k].finished,
    ensures
        !scanned(v, roots, walks, n).completed_roots.contains(root),
        !stream_scanned(v, roots, walks, n).completed_roots.contains(root),
    decreases n,
{
    if n > 0 {
        let m = (n - 1) as nat;
        law_cancelled_roots_are_not_finished(v, roots, walks, m, root);
        let all = walk_views(walks[m as int].entries@);
        let a = scanned(v, roots, walks, m);
        let b = stream_scanned(v, roots, walks, m);
        lemma_walking_keeps_roots(a, all);
        lemma_walking_keeps_roots(b, all);
        let last = roots[m as int];
        if last != root {
            lemma_other_root(walked(a, all), last, root);
            lemma_other_root(streamed(b, all).0, last, root);
        }
    }
}

proof fn lemma_other_root(v: IndexView, root: Seq<char>, other: Seq<char>)
    requires
        root != other,
        !v.completed_roots.contains(other),
    ensures
        !with_root_done(v, root).completed_roots.contains(other),
{
    let before = v.completed_roots;
    let now = with_root_done(v, root).completed_roots;
    if now.contains(other) {
        let k = choose|k: int| 0 <= k < now.len() && now[k] == other;
        if k < before.len() {
            assert(before[k] == other);
        }
    }
}

}
