//! The file index: an in-memory catalog of every file and folder on the
//! configured roots. Entries store only their own name plus a parent pointer,
//! so full paths are reconstructed on demand and memory stays small even with
//! millions of files.

use crate::dir_map::{outside, DirMap};
use crate::paths::{
    components_of, file_name, file_name_of, is_plain_name, joined_path, law_same_path_same_spelling,
    lemma_file_name_plain, lemma_join_components, lemma_parent_components, normal, parent_of,
    parent_path, push_path,
};
use crate::text::{same_text, views};
use std::collections::HashMap;
use vstd::prelude::*;

verus! {

broadcast use vstd::std_specs::hash::group_hash_axioms;

/// Parent pointer of an entry that has no parent.
pub const NO_PARENT: u32 = u32::MAX;

pub const FLAG_DIR: u8 = 1;

pub const FLAG_DELETED: u8 = 2;

/// Directory levels that a path may have above its last component.
pub const MAX_HOPS: u32 = 256;

// ---------------------------------------------------------------------------
// Entries
// ---------------------------------------------------------------------------

pub struct Entry {
    pub name: String,
    pub parent: u32,
    pub size: u64,
    /// Unix seconds of last modification.
    pub modified: i64,
    /// Lowest bit: a directory. Next bit: deleted.
    pub flags: u8,
}

/// What an entry says.
#[verifier::ext_equal]
pub struct EntryView {
    pub name: Seq<char>,
    pub parent: u32,
    pub size: u64,
    pub modified: i64,
    pub dir: bool,
    pub deleted: bool,
}

impl View for Entry {
    type V = EntryView;

    open spec fn view(&self) -> EntryView {
        EntryView {
            name: self.name@,
            parent: self.parent,
            size: self.size,
            modified: self.modified,
            dir: self.flags & FLAG_DIR != 0,
            deleted: self.flags & FLAG_DELETED != 0,
        }
    }
}

impl Entry {
    /// A live entry.
    pub fn new(name: String, parent: u32, size: u64, modified: i64, is_dir: bool) -> (r: Entry)
        ensures
            r@ == (EntryView {
                name: name@,
                parent,
                size,
                modified,
                dir: is_dir,
                deleted: false,
            }),
    {
        assert(1u8 & 1 != 0 && 1u8 & 2 == 0 && 0u8 & 1 == 0 && 0u8 & 2 == 0) by (bit_vector);
        Entry {
            name,
            parent,
            size,
            modified,
            flags: if is_dir {
                FLAG_DIR
            } else {
                0
            },
        }
    }

    pub fn is_dir(&self) -> (r: bool)
        ensures
            r == self@.dir,
    {
        self.flags & FLAG_DIR != 0
    }

    pub fn is_deleted(&self) -> (r: bool)
        ensures
            r == self@.deleted,
    {
        self.flags & FLAG_DELETED != 0
    }

    /// Sets or clears the deletion mark.
    pub(crate) fn set_deleted(&mut self, deleted: bool)
        ensures
            final(self)@ == (EntryView { deleted, ..old(self)@ }),
    {
        let f: u8 = self.flags;
        assert((f | 2) & 2 != 0 && (f | 2) & 1 == f & 1 && (f & !2u8) & 2 == 0 && (f & !2u8) & 1
            == f & 1) by (bit_vector);
        if deleted {
            self.flags = f | FLAG_DELETED;
        } else {
            self.flags = f & !FLAG_DELETED;
        }
    }

    /// Overwrites size and time of modification.
    pub(crate) fn set_stats(&mut self, size: u64, modified: i64)
        ensures
            final(self)@ == (EntryView { size, modified, ..old(self)@ }),
    {
        self.size = size;
        self.modified = modified;
    }
}

// ---------------------------------------------------------------------------
// The model of an index
// ---------------------------------------------------------------------------

/// The numbers of the entries whose parent is `p`, in ascending order.
pub open spec fn kids(entries: Seq<EntryView>, p: u32) -> Seq<u32>
    decreases entries.len(),
{
    if entries.len() == 0 {
        Seq::empty()
    } else {
        let before = kids(entries.drop_last(), p);
        if entries.last().parent == p {
            before.push((entries.len() - 1) as u32)
        } else {
            before
        }
    }
}

/// The children of every entry that has some.
pub open spec fn children_of(entries: Seq<EntryView>) -> Map<u32, Seq<u32>> {
    Map::new(|p: u32| p != NO_PARENT && kids(entries, p).len() > 0, |p: u32| kids(entries, p))
}

/// Number of entries that are not deleted.
pub open spec fn live(entries: Seq<EntryView>) -> nat
    decreases entries.len(),
{
    if entries.len() == 0 {
        0
    } else {
        live(entries.drop_last()) + (if entries.last().deleted {
            0nat
        } else {
            1nat
        })
    }
}

/// Whether the parent pointer of `e` leads to a directory.
pub open spec fn has_dir_parent(entries: Seq<EntryView>, e: EntryView) -> bool {
    e.parent != NO_PARENT && e.parent < entries.len() && entries[e.parent as int].dir
}

/// The path of an entry: the names of at most `hops` directories above it, the
/// outermost first, and its own. A pointer to anything but a directory ends the
/// chain.
pub open spec fn path_within(entries: Seq<EntryView>, idx: int, hops: nat) -> Seq<char>
    decreases hops,
{
    if !(0 <= idx < entries.len()) {
        Seq::empty()
    } else {
        let e = entries[idx];
        let above = if hops > 0 && has_dir_parent(entries, e) {
            path_within(entries, e.parent as int, (hops - 1) as nat)
        } else {
            Seq::empty()
        };
        joined_path(above, e.name)
    }
}

/// The full path of an entry.
pub open spec fn path_at(entries: Seq<EntryView>, idx: int) -> Seq<char> {
    path_within(entries, idx, MAX_HOPS as nat)
}

/// The directories that are not deleted, by path; of two with one path the
/// later counts.
pub open spec fn live_dirs(entries: Seq<EntryView>, upto: nat) -> Map<Seq<char>, u32>
    decreases upto,
{
    if upto == 0 {
        Map::empty()
    } else {
        let i = (upto - 1) as nat;
        let before = live_dirs(entries, i);
        if entries[i as int].dir && !entries[i as int].deleted {
            before.insert(normal(path_at(entries, i as int)), i as u32)
        } else {
            before
        }
    }
}

/// The entry that `n` parent pointers lead to from `j`; -1 where a pointer is
/// missing.
pub open spec fn up(entries: Seq<EntryView>, j: int, n: nat) -> int
    decreases n,
{
    if n == 0 {
        j
    } else {
        let q = up(entries, j, (n - 1) as nat);
        if 0 <= q < entries.len() && entries[q].parent != NO_PARENT {
            entries[q].parent as int
        } else {
            -1
        }
    }
}

/// Whether `j` is `idx` or lies below it.
pub open spec fn below(entries: Seq<EntryView>, idx: int, j: int) -> bool {
    exists|n: nat| #[trigger] up(entries, j, n) == idx
}

/// Every parent pointer names an entry.
pub open spec fn linked(entries: Seq<EntryView>) -> bool {
    forall|i: int|
        0 <= i < entries.len() ==> (#[trigger] entries[i]).parent == NO_PARENT || entries[i].parent
            < entries.len()
}

/// Whether no parent pointer has the number of the entry that would be added next.
pub open spec fn is_free(entries: Seq<EntryView>) -> bool {
    forall|i: int| 0 <= i < entries.len() ==> (#[trigger] entries[i]).parent != entries.len()
}

/// Every entry comes after its parent.
pub open spec fn ordered(entries: Seq<EntryView>) -> bool {
    forall|i: int|
        0 <= i < entries.len() ==> (#[trigger] entries[i]).parent == NO_PARENT || entries[i].parent
            < i
}

/// Whether entries are in order after a change if they were before it.
pub open spec fn keeps_order(before: Seq<EntryView>, after: Seq<EntryView>) -> bool {
    &&& linked(before) ==> linked(after)
    &&& ordered(before) ==> ordered(after)
}

/// The entries with `idx` and everything below it marked deleted.
pub open spec fn mark_below(entries: Seq<EntryView>, idx: int) -> Seq<EntryView> {
    Seq::new(
        entries.len(),
        |j: int|
            EntryView { deleted: entries[j].deleted || below(entries, idx, j), ..entries[j] },
    )
}

/// What an index holds.
#[verifier::ext_equal]
pub struct IndexView {
    pub entries: Seq<EntryView>,
    pub dir_map: Map<Seq<char>, u32>,
    pub children: Map<u32, Seq<u32>>,
    pub roots: Seq<Seq<char>>,
    pub scanned_at: i64,
    pub complete: bool,
    pub completed_roots: Seq<Seq<char>>,
}

impl IndexView {
    /// The children lists are those of the entries, and the directory map
    /// leads to directories.
    pub open spec fn wf(self) -> bool {
        &&& self.entries.len() <= NO_PARENT
        &&& self.children == children_of(self.entries)
        &&& forall|k: Seq<char>| #[trigger]
            self.dir_map.contains_key(k) ==> self.dir_map[k] < self.entries.len()
                && self.entries[self.dir_map[k] as int].dir
    }

    /// The index with one more live entry.
    pub open spec fn pushed(
        self,
        name: Seq<char>,
        parent: u32,
        size: u64,
        modified: i64,
        dir: bool,
    ) -> IndexView {
        let entries = self.entries.push(
            EntryView { name, parent, size, modified, dir, deleted: false },
        );
        IndexView { entries, children: children_of(entries), ..self }
    }
}

pub struct Index {
    pub entries: Vec<Entry>,
    /// Path -> entry number, for directories only. Used to resolve parents
    /// during scanning and to apply file-watcher events. Derived from
    /// `entries`, so it is rebuilt after loading.
    pub dir_map: DirMap,
    /// Children of each directory entry. Derived from `entries` too.
    pub children: HashMap<u32, Vec<u32>>,
    pub roots: Vec<String>,
    pub scanned_at: i64,
    /// True only when every root has been fully scanned. An index saved
    /// mid-scan is loadable but not complete, and the scan resumes.
    pub complete: bool,
    /// Roots whose scan finished: an interrupted build resumes with only the
    /// missing roots.
    pub completed_roots: Vec<String>,
}

/// The views of a list of entries.
pub open spec fn entry_views(entries: Seq<Entry>) -> Seq<EntryView> {
    entries.map_values(|e: Entry| e@)
}

/// The views of the children lists.
pub open spec fn list_views(m: Map<u32, Vec<u32>>) -> Map<u32, Seq<u32>> {
    m.map_values(|v: Vec<u32>| v@)
}

impl View for Index {
    type V = IndexView;

    open spec fn view(&self) -> IndexView {
        IndexView {
            entries: entry_views(self.entries@),
            dir_map: self.dir_map@,
            children: list_views(self.children@),
            roots: views(self.roots@),
            scanned_at: self.scanned_at,
            complete: self.complete,
            completed_roots: views(self.completed_roots@),
        }
    }
}

// ---------------------------------------------------------------------------
// Facts about children and ancestors
// ---------------------------------------------------------------------------

pub proof fn lemma_kids(entries: Seq<EntryView>, p: u32)
    requires
        entries.len() <= NO_PARENT,
    ensures
        forall|i: int|
            0 <= i < kids(entries, p).len() ==> (#[trigger] kids(entries, p)[i]) < entries.len()
                && entries[kids(entries, p)[i] as int].parent == p,
        forall|i: int, j: int|
            0 <= i < j < kids(entries, p).len() ==> kids(entries, p)[i] < kids(entries, p)[j],
        forall|k: int|
            0 <= k < entries.len() && (#[trigger] entries[k]).parent == p ==> kids(
                entries,
                p,
            ).contains(k as u32),
    decreases entries.len(),
{
    if entries.len() > 0 {
        let front = entries.drop_last();
        lemma_kids(front, p);
        let before = kids(front, p);
        let now = kids(entries, p);
        assert forall|i: int| 0 <= i < now.len() implies (#[trigger] now[i]) < entries.len()
            && entries[now[i] as int].parent == p by {
            if i < before.len() {
                assert(now[i] == before[i]);
                assert(front[before[i] as int] == entries[before[i] as int]);
            }
        }
        assert forall|k: int|
            0 <= k < entries.len() && (#[trigger] entries[k]).parent == p implies now.contains(
            k as u32,
        ) by {
            if k < front.len() {
                assert(front[k] == entries[k]);
                assert(before.contains(k as u32));
                let i = choose|i: int| 0 <= i < before.len() && before[i] == k as u32;
                assert(now[i] == k as u32);
            } else {
                assert(now[now.len() - 1] == k as u32);
            }
        }
    }
}

proof fn lemma_kids_push(entries: Seq<EntryView>, e: EntryView, p: u32)
    ensures
        kids(entries.push(e), p) == if e.parent == p {
            kids(entries, p).push(entries.len() as u32)
        } else {
            kids(entries, p)
        },
{
    assert(entries.push(e).drop_last() =~= entries);
}

/// The children lists after one more entry.
proof fn lemma_children_push(entries: Seq<EntryView>, e: EntryView)
    requires
        entries.len() < NO_PARENT,
    ensures
        children_of(entries.push(e)) == if e.parent == NO_PARENT {
            children_of(entries)
        } else {
            children_of(entries).insert(
                e.parent,
                (if children_of(entries).contains_key(e.parent) {
                    children_of(entries)[e.parent]
                } else {
                    Seq::empty()
                }).push(entries.len() as u32),
            )
        },
{
    let now = entries.push(e);
    assert forall|p: u32| #[trigger]
        kids(now, p) == if e.parent == p {
            kids(entries, p).push(entries.len() as u32)
        } else {
            kids(entries, p)
        } by {
        lemma_kids_push(entries, e, p);
    }
    if e.parent == NO_PARENT {
        assert(children_of(now) =~= children_of(entries));
    } else {
        if !children_of(entries).contains_key(e.parent) {
            assert(kids(entries, e.parent) =~= Seq::<u32>::empty());
        }
        assert(children_of(now) =~= children_of(entries).insert(e.parent, kids(now, e.parent)));
    }
}

/// Only the parent pointers decide who is a child.
pub proof fn lemma_kids_same(a: Seq<EntryView>, b: Seq<EntryView>, p: u32)
    requires
        a.len() == b.len(),
        forall|i: int| 0 <= i < a.len() ==> (#[trigger] a[i]).parent == b[i].parent,
    ensures
        kids(a, p) == kids(b, p),
    decreases a.len(),
{
    if a.len() > 0 {
        assert forall|i: int| 0 <= i < a.drop_last().len() implies (#[trigger] a.drop_last()[i]).parent
            == b.drop_last()[i].parent by {
            assert(a.drop_last()[i] == a[i]);
        }
        lemma_kids_same(a.drop_last(), b.drop_last(), p);
        assert(a[a.len() - 1].parent == b[a.len() - 1].parent);
    }
}

pub proof fn lemma_children_same(a: Seq<EntryView>, b: Seq<EntryView>)
    requires
        a.len() == b.len(),
        forall|i: int| 0 <= i < a.len() ==> (#[trigger] a[i]).parent == b[i].parent,
    ensures
        children_of(a) == children_of(b),
{
    assert forall|p: u32| #[trigger] kids(a, p) == kids(b, p) by {
        lemma_kids_same(a, b, p);
    }
    assert(children_of(a) =~= children_of(b));
}

proof fn lemma_up_shift(entries: Seq<EntryView>, j: int, n: nat)
    requires
        0 <= j < entries.len(),
        entries[j].parent != NO_PARENT,
    ensures
        up(entries, j, n + 1) == up(entries, entries[j].parent as int, n),
    decreases n,
{
    if n > 0 {
        lemma_up_shift(entries, j, (n - 1) as nat);
    } else {
        assert(up(entries, j, 0) == j);
        assert(up(entries, j, 1) == entries[j].parent as int);
    }
}

proof fn lemma_up_out(entries: Seq<EntryView>, j: int, n: nat)
    requires
        !(0 <= j < entries.len()) || entries[j].parent == NO_PARENT,
    ensures
        n > 0 ==> up(entries, j, n) == -1,
    decreases n,
{
    reveal_with_fuel(up, 2);
    if n > 0 {
        lemma_up_out(entries, j, (n - 1) as nat);
    }
}

/// Walking up does not depend on anything but the parent pointers.
pub proof fn lemma_up_same(a: Seq<EntryView>, b: Seq<EntryView>, j: int, n: nat)
    requires
        a.len() == b.len(),
        forall|i: int| 0 <= i < a.len() ==> (#[trigger] a[i]).parent == b[i].parent,
    ensures
        up(a, j, n) == up(b, j, n),
    decreases n,
{
    if n > 0 {
        lemma_up_same(a, b, j, (n - 1) as nat);
        let q = up(a, j, (n - 1) as nat);
        if 0 <= q < a.len() {
            assert(a[q].parent == b[q].parent);
        }
    }
}

/// Changes that leave the parent pointers alone keep entries in order.
pub proof fn lemma_order_same(a: Seq<EntryView>, b: Seq<EntryView>)
    requires
        a.len() == b.len(),
        forall|i: int| 0 <= i < a.len() ==> (#[trigger] a[i]).parent == b[i].parent,
    ensures
        keeps_order(a, b),
{
    if linked(a) {
        assert forall|i: int| 0 <= i < b.len() implies (#[trigger] b[i]).parent == NO_PARENT
            || b[i].parent < b.len() by {
            assert(a[i].parent == b[i].parent);
        }
    }
    if ordered(a) {
        assert forall|i: int| 0 <= i < b.len() implies (#[trigger] b[i]).parent == NO_PARENT
            || b[i].parent < i by {
            assert(a[i].parent == b[i].parent);
        }
    }
}

/// A new entry below an existing one, or below none, keeps entries in order.
pub proof fn lemma_order_push(entries: Seq<EntryView>, e: EntryView)
    requires
        e.parent == NO_PARENT || e.parent < entries.len(),
    ensures
        keeps_order(entries, entries.push(e)),
{
    let now = entries.push(e);
    assert forall|i: int| 0 <= i < entries.len() implies (#[trigger] now[i]) == entries[i] by {}
}

/// From an old entry the way up does not lead to a new one, where no pointer had its
/// number before.
proof fn lemma_up_old(entries: Seq<EntryView>, e: EntryView, j: int, n: nat)
    requires
        is_free(entries),
        0 <= j < entries.len(),
    ensures
        up(entries.push(e), j, n) != entries.len(),
        up(entries.push(e), j, n) == up(entries, j, n),
    decreases n,
{
    if n > 0 {
        lemma_up_old(entries, e, j, (n - 1) as nat);
        let q = up(entries, j, (n - 1) as nat);
        if 0 <= q < entries.len() {
            assert(entries.push(e)[q] == entries[q]);
        }
    }
}

// ---------------------------------------------------------------------------
// Operations
// ---------------------------------------------------------------------------

impl Default for Index {
    fn default() -> (r: Self)
        ensures
            r.wf(),
            r@ == empty_index(Seq::empty(), 0),
    {
        Index::starting(Vec::new(), 0)
    }
}

/// An index without entries.
pub open spec fn empty_index(roots: Seq<Seq<char>>, scanned_at: i64) -> IndexView {
    IndexView {
        entries: Seq::empty(),
        dir_map: Map::empty(),
        children: Map::empty(),
        roots,
        scanned_at,
        complete: false,
        completed_roots: Seq::empty(),
    }
}

proof fn lemma_entry_update(entries: Seq<Entry>, i: int, e: Entry)
    requires
        0 <= i < entries.len(),
    ensures
        entry_views(entries.update(i, e)) == entry_views(entries).update(i, e@),
{
    assert(entry_views(entries.update(i, e)) =~= entry_views(entries).update(i, e@));
}

impl Index {
    pub open spec fn wf(&self) -> bool {
        self@.wf() && self.dir_map.wf()
    }

    /// An index without entries, for the given roots.
    pub fn starting(roots: Vec<String>, scanned_at: i64) -> (r: Index)
        ensures
            r.wf(),
            r@ == empty_index(views(roots@), scanned_at),
    {
        let r = Index {
            entries: Vec::new(),
            dir_map: DirMap::new(),
            children: HashMap::new(),
            roots,
            scanned_at,
            complete: false,
            completed_roots: Vec::new(),
        };
        proof {
            assert(r@.entries =~= Seq::<EntryView>::empty());
            assert(r@.children =~= Map::<u32, Seq<u32>>::empty());
            assert(r@.completed_roots =~= Seq::<Seq<char>>::empty());
            assert(children_of(r@.entries) =~= Map::<u32, Seq<u32>>::empty());
        }
        r
    }

    /// Number of live (non-deleted) entries.
    pub fn live_count(&self) -> (r: usize)
        ensures
            r == live(self@.entries),
    {
        let mut n: usize = 0;
        let ghost all = self@.entries;
        for i in 0..self.entries.len()
            invariant
                all == self@.entries,
                n == live(all.take(i as int)),
                n <= i,
        {
            assert(all.take(i + 1).drop_last() =~= all.take(i as int));
            assert(all.take(i + 1).last() == self.entries@[i as int]@);
            if !self.entries[i].is_deleted() {
                n = n + 1;
            }
        }
        assert(all.take(all.len() as int) =~= all);
        n
    }

    /// The path of an entry, through at most `hops` directories.
    fn path_up(&self, idx: u32, hops: u32) -> (r: String)
        ensures
            r@ == path_within(self@.entries, idx as int, hops as nat),
        decreases hops,
    {
        let i = idx as usize;
        if i >= self.entries.len() {
            return String::new();
        }
        let e = &self.entries[i];
        assert(self@.entries[idx as int] == e@);
        let p = e.parent as usize;
        let mut path = if hops > 0 && e.parent != NO_PARENT && p < self.entries.len()
            && self.entries[p].is_dir() {
            assert(self@.entries[p as int] == self.entries@[p as int]@);
            self.path_up(e.parent, hops - 1)
        } else {
            String::new()
        };
        push_path(&mut path, e.name.as_str());
        path
    }

    /// The full path of an entry; empty where there is no such entry.
    pub fn full_path(&self, idx: u32) -> (r: String)
        ensures
            r@ == path_at(self@.entries, idx as int),
    {
        self.path_up(idx, MAX_HOPS)
    }

    /// The full path of an entry as text.
    pub fn full_path_string(&self, idx: u32) -> (r: String)
        ensures
            r@ == path_at(self@.entries, idx as int),
    {
        self.full_path(idx)
    }

    /// Adds `idx` to the children of `parent`.
    fn add_child(&mut self, parent: u32, idx: u32)
        ensures
            final(self).entries == old(self).entries,
            final(self).dir_map == old(self).dir_map,
            final(self).roots == old(self).roots,
            final(self).scanned_at == old(self).scanned_at,
            final(self).complete == old(self).complete,
            final(self).completed_roots == old(self).completed_roots,
            list_views(final(self).children@) == list_views(old(self).children@).insert(
                parent,
                (if list_views(old(self).children@).contains_key(parent) {
                    list_views(old(self).children@)[parent]
                } else {
                    Seq::empty()
                }).push(idx),
            ),
    {
        let mut list: Vec<u32> = match self.children.remove(&parent) {
            Some(v) => v,
            None => Vec::new(),
        };
        list.push(idx);
        self.children.insert(parent, list);
        assert(list_views(self.children@) =~= list_views(old(self).children@).insert(
            parent,
            list@,
        ));
    }

    /// Appends an entry with its children list.
    pub(crate) fn append(&mut self, e: Entry)
        requires
            old(self).wf(),
            old(self)@.entries.len() < NO_PARENT,
        ensures
            final(self).wf(),
            final(self)@ == (IndexView {
                entries: old(self)@.entries.push(e@),
                children: children_of(old(self)@.entries.push(e@)),
                ..old(self)@
            }),
    {
        let idx = self.entries.len() as u32;
        let parent = e.parent;
        let ghost before = self@;
        let ghost now = before.entries.push(e@);
        proof {
            lemma_children_push(before.entries, e@);
        }
        self.entries.push(e);
        assert(entry_views(self.entries@) =~= now);
        if parent != NO_PARENT {
            self.add_child(parent, idx);
        }
        assert forall|k: Seq<char>| #[trigger] self@.dir_map.contains_key(k) implies self@.dir_map[k]
            < now.len() && now[self@.dir_map[k] as int].dir by {
            assert(before.entries[self@.dir_map[k] as int].dir);
        }
    }

    pub(crate) fn push_entry(
        &mut self,
        name: &str,
        parent: u32,
        size: u64,
        modified: i64,
        is_dir: bool,
    ) -> (r: u32)
        requires
            old(self).wf(),
            old(self)@.entries.len() < NO_PARENT,
        ensures
            final(self).wf(),
            r == old(self)@.entries.len(),
            final(self)@ == old(self)@.pushed(name@, parent, size, modified, is_dir),
    {
        let idx = self.entries.len() as u32;
        self.append(Entry::new(name.to_owned(), parent, size, modified, is_dir));
        idx
    }

    /// Appends a live entry and returns its number.
    pub fn push_entry_pub(
        &mut self,
        name: &str,
        parent: u32,
        size: u64,
        modified: i64,
        is_dir: bool,
    ) -> (r: u32)
        requires
            old(self).wf(),
            old(self)@.entries.len() < NO_PARENT,
        ensures
            final(self).wf(),
            r == old(self)@.entries.len(),
            final(self)@ == old(self)@.pushed(name@, parent, size, modified, is_dir),
    {
        self.push_entry(name, parent, size, modified, is_dir)
    }
}

// ---------------------------------------------------------------------------
// Deleting
// ---------------------------------------------------------------------------

/// Appends the numbers of `more`.
fn append_numbers(v: &mut Vec<u32>, more: &[u32])
    ensures
        final(v)@ == old(v)@ + more@,
{
    let ghost start = v@;
    for i in 0..more.len()
        invariant
            v@ == start + more@.take(i as int),
    {
        v.push(more[i]);
        assert(start + more@.take(i + 1) =~= (start + more@.take(i as int)).push(more@[i as int]));
    }
    assert(more@.take(more@.len() as int) =~= more@);
}

/// The numbers of a list other than `x`.
spec fn others(list: Seq<u32>, x: u32) -> Seq<u32>
    decreases list.len(),
{
    if list.len() == 0 {
        list
    } else if list.last() == x {
        others(list.drop_last(), x)
    } else {
        others(list.drop_last(), x).push(list.last())
    }
}

proof fn lemma_others(list: Seq<u32>, x: u32)
    requires
        forall|i: int, j: int| 0 <= i < j < list.len() ==> list[i] < list[j],
    ensures
        forall|k: u32| #[trigger] others(list, x).contains(k) <==> list.contains(k) && k != x,
        others(list, x).no_duplicates(),
    decreases list.len(),
{
    if list.len() > 0 {
        let front = list.drop_last();
        let before = others(front, x);
        let now = others(list, x);
        lemma_others(front, x);
        assert forall|k: u32| #[trigger] now.contains(k) <==> list.contains(k) && k != x by {
            if now.contains(k) {
                let i = choose|i: int| 0 <= i < now.len() && now[i] == k;
                if i < before.len() {
                    assert(before[i] == k);
                    assert(before.contains(k));
                    let m = choose|m: int| 0 <= m < front.len() && front[m] == k;
                    assert(list[m] == k);
                } else {
                    assert(list[list.len() - 1] == k);
                }
            }
            if list.contains(k) && k != x {
                let m = choose|m: int| 0 <= m < list.len() && list[m] == k;
                if m < front.len() {
                    assert(front[m] == k);
                    assert(before.contains(k));
                    let i = choose|i: int| 0 <= i < before.len() && before[i] == k;
                    assert(now[i] == k);
                } else {
                    assert(now[now.len() - 1] == k);
                }
            }
        }
        assert forall|i: int, j: int|
            0 <= i < now.len() && 0 <= j < now.len() && i != j implies now[i] != now[j] by {
            let (a, b) = if i < j {
                (i, j)
            } else {
                (j, i)
            };
            if b < before.len() {
                assert(before[a] == now[a] && before[b] == now[b]);
            } else {
                assert(before[a] == now[a]);
                assert(before.contains(now[a]));
                let m = choose|m: int| 0 <= m < front.len() && front[m] == now[a];
                assert(list[m] < list[list.len() - 1]);
            }
        }
    }
}

/// Appends the numbers of `more` other than `x`.
fn append_others(v: &mut Vec<u32>, more: &[u32], x: u32)
    ensures
        final(v)@ == old(v)@ + others(more@, x),
{
    let ghost start = v@;
    assert(start + others(more@.take(0), x) =~= start);
    for i in 0..more.len()
        invariant
            v@ == start + others(more@.take(i as int), x),
    {
        assert(more@.take(i + 1).drop_last() =~= more@.take(i as int));
        if more[i] != x {
            let ghost before = others(more@.take(i as int), x);
            v.push(more[i]);
            assert((start + before).push(more@[i as int]) =~= start + before.push(
                more@[i as int],
            ));
        }
    }
    assert(more@.take(more@.len() as int) =~= more@);
}

/// What a walk down from `idx` has reached: the entries in `seen` are done,
/// those on the stack are not.
spec fn walk_inv(entries: Seq<EntryView>, idx: int, seen: Set<int>, stack: Seq<u32>) -> bool {
    &&& seen.finite()
    &&& forall|j: int| #[trigger] seen.contains(j) ==> 0 <= j < entries.len()
    &&& forall|i: int|
        0 <= i < stack.len() ==> (#[trigger] stack[i]) < entries.len() && !seen.contains(
            stack[i] as int,
        )
    &&& stack.no_duplicates()
    &&& seen.contains(idx) || stack == seq![idx as u32]
    &&& forall|j: int| #[trigger]
        seen.contains(j) ==> below(entries, idx, j) && (j == idx || seen.contains(
            entries[j].parent as int,
        ))
    &&& forall|i: int|
        0 <= i < stack.len() ==> below(entries, idx, (#[trigger] stack[i]) as int) && (stack[i]
            == idx || seen.contains(entries[stack[i] as int].parent as int))
    &&& forall|k: int|
        0 <= k < entries.len() && (#[trigger] entries[k]).parent != NO_PARENT && seen.contains(
            entries[k].parent as int,
        ) ==> seen.contains(k) || stack.contains(k as u32)
}

proof fn lemma_below_child(entries: Seq<EntryView>, idx: int, j: int)
    requires
        0 <= j < entries.len(),
        entries[j].parent != NO_PARENT,
        below(entries, idx, entries[j].parent as int),
    ensures
        below(entries, idx, j),
{
    let n = choose|n: nat| #[trigger] up(entries, entries[j].parent as int, n) == idx;
    lemma_up_shift(entries, j, n);
    assert(up(entries, j, n + 1) == idx);
}

/// One step of the walk: the top of the stack is done, its children wait, but for
/// `idx` itself, which a loop of pointers may lead back to.
proof fn lemma_walk_step(entries: Seq<EntryView>, idx: int, seen: Set<int>, stack: Seq<u32>)
    requires
        entries.len() <= NO_PARENT,
        0 <= idx < entries.len(),
        stack.len() > 0,
        walk_inv(entries, idx, seen, stack),
    ensures
        walk_inv(
            entries,
            idx,
            seen.insert(stack.last() as int),
            stack.drop_last() + others(kids(entries, stack.last()), idx as u32),
        ),
{
    let top = stack.last();
    let rest = stack.drop_last();
    let list = kids(entries, top);
    let more = others(list, idx as u32);
    let seen2 = seen.insert(top as int);
    let stack2 = rest + more;
    lemma_kids(entries, top);
    lemma_others(list, idx as u32);
    assert(stack[stack.len() - 1] == top);
    assert(below(entries, idx, top as int));
    assert(seen2.contains(idx)) by {
        if !seen.contains(idx) {
            assert(stack[0] == idx);
        }
    }
    // A child of the top is new: otherwise its parent would have been done before.
    assert forall|i: int| 0 <= i < more.len() implies !seen2.contains((#[trigger] more[i]) as int)
        && !rest.contains(more[i]) && below(entries, idx, more[i] as int) && more[i] < entries.len()
        && entries[more[i] as int].parent == top by {
        let k = more[i];
        assert(more.contains(k));
        let m = choose|m: int| 0 <= m < list.len() && list[m] == k;
        assert(entries[list[m] as int].parent == top);
        assert(top != NO_PARENT);
        lemma_below_child(entries, idx, k as int);
        if k == top {
            // Then the top would be its own parent, and the walk would have
            // reached it only through itself.
            assert(stack[stack.len() - 1] == k);
            assert(seen.contains(entries[k as int].parent as int));
        }
        if seen.contains(k as int) {
            assert(seen.contains(top as int));
        }
        if rest.contains(k) {
            let m = choose|m: int| 0 <= m < rest.len() && rest[m] == k;
            assert(stack[m] == k);
            assert(seen.contains(entries[k as int].parent as int));
        }
    }
    assert forall|i: int| 0 <= i < stack2.len() implies (#[trigger] stack2[i]) < entries.len()
        && !seen2.contains(stack2[i] as int) && below(entries, idx, stack2[i] as int) && (stack2[i]
        == idx || seen2.contains(entries[stack2[i] as int].parent as int)) by {
        if i < rest.len() {
            assert(stack2[i] == stack[i]);
            assert(stack[i] != stack[stack.len() - 1]);
        } else {
            assert(stack2[i] == more[i - rest.len()]);
        }
    }
    assert(stack2.no_duplicates()) by {
        assert forall|i: int, j: int|
            0 <= i < stack2.len() && 0 <= j < stack2.len() && i != j implies stack2[i]
            != stack2[j] by {
            if i < rest.len() && j < rest.len() {
                assert(stack2[i] == stack[i] && stack2[j] == stack[j]);
            } else if i < rest.len() {
                assert(stack2[j] == more[j - rest.len()]);
                assert(stack2[i] == rest[i]);
                assert(rest.contains(stack2[i]));
            } else if j < rest.len() {
                assert(stack2[i] == more[i - rest.len()]);
                assert(stack2[j] == rest[j]);
                assert(rest.contains(stack2[j]));
            } else {
                assert(stack2[i] == more[i - rest.len()]);
                assert(stack2[j] == more[j - rest.len()]);
            }
        }
    }
    assert forall|k: int|
        0 <= k < entries.len() && (#[trigger] entries[k]).parent != NO_PARENT && seen2.contains(
            entries[k].parent as int,
        ) implies seen2.contains(k) || stack2.contains(k as u32) by {
        if k == idx {
        } else if entries[k].parent == top {
            assert(list.contains(k as u32));
            assert(more.contains(k as u32));
            let m = choose|m: int| 0 <= m < more.len() && more[m] == k as u32;
            assert(stack2[rest.len() + m] == k as u32);
        } else if !seen.contains(k) {
            assert(stack.contains(k as u32));
            let m = choose|m: int| 0 <= m < stack.len() && stack[m] == k as u32;
            if m < rest.len() {
                assert(stack2[m] == k as u32);
            }
        }
    }
}

/// When nothing waits any more, everything below `idx` has been reached.
proof fn lemma_walk_done(
    entries: Seq<EntryView>,
    idx: int,
    seen: Set<int>,
    stack: Seq<u32>,
    j: int,
    n: nat,
)
    requires
        stack.len() == 0,
        walk_inv(entries, idx, seen, stack),
        0 <= idx < entries.len(),
        0 <= j < entries.len(),
        up(entries, j, n) == idx,
    ensures
        seen.contains(j),
    decreases n,
{
    if n > 0 {
        if entries[j].parent == NO_PARENT {
            lemma_up_out(entries, j, n);
        } else {
            let p = entries[j].parent as int;
            lemma_up_shift(entries, j, (n - 1) as nat);
            if !(0 <= p < entries.len()) {
                if n > 1 {
                    lemma_up_out(entries, p, (n - 1) as nat);
                }
            }
            lemma_walk_done(entries, idx, seen, stack, p, (n - 1) as nat);
        }
    }
}

/// The entries with those in `seen` marked deleted.
spec fn marked(entries: Seq<EntryView>, seen: Set<int>) -> Seq<EntryView> {
    Seq::new(
        entries.len(),
        |j: int| EntryView { deleted: entries[j].deleted || seen.contains(j), ..entries[j] },
    )
}

/// Changes that leave names of parents and directories alone keep an index
/// well-formed.
pub proof fn lemma_wf_same_links(a: IndexView, b: IndexView)
    requires
        a.wf(),
        b.dir_map == a.dir_map,
        b.children == a.children,
        a.entries.len() == b.entries.len(),
        forall|i: int|
            0 <= i < a.entries.len() ==> (#[trigger] a.entries[i]).parent == b.entries[i].parent
                && a.entries[i].dir == b.entries[i].dir,
    ensures
        b.wf(),
{
    lemma_children_same(a.entries, b.entries);
    assert forall|k: Seq<char>| #[trigger] b.dir_map.contains_key(k) implies b.dir_map[k]
        < b.entries.len() && b.entries[b.dir_map[k] as int].dir by {
        assert(a.dir_map.contains_key(k));
        assert(a.entries[a.dir_map[k] as int].dir);
    }
}

impl Index {
    /// The children of an entry, in ascending order.
    fn kids_of(&self, p: u32) -> (r: Option<&Vec<u32>>)
        requires
            self@.wf(),
            p != NO_PARENT,
        ensures
            (match r {
                Some(list) => list@ == kids(self@.entries, p),
                None => kids(self@.entries, p).len() == 0,
            }),
    {
        let r = self.children.get(&p);
        proof {
            let m = children_of(self@.entries);
            assert(list_views(self.children@) == m);
            assert(m.contains_key(p) == self.children@.contains_key(p));
            if let Some(list) = r {
                assert(list_views(self.children@)[p] == list@);
                assert(m[p] == kids(self@.entries, p));
            }
        }
        r
    }

    /// Marks an entry and everything below it deleted.
    fn mark_deleted_recursive(&mut self, idx: u32)
        requires
            old(self).wf(),
            idx < old(self)@.entries.len(),
        ensures
            final(self).wf(),
            final(self)@ == (IndexView {
                entries: mark_below(old(self)@.entries, idx as int),
                ..old(self)@
            }),
    {
        let ghost v = self@;
        let mut stack: Vec<u32> = Vec::new();
        stack.push(idx);
        let ghost mut seen = Set::<int>::empty();
        proof {
            assert(up(v.entries, idx as int, 0) == idx);
            assert(stack@ =~= seq![idx]);
            assert(marked(v.entries, seen) =~= v.entries);
        }
        while stack.len() > 0
            invariant
                v == old(self)@,
                v.wf(),
                idx < v.entries.len(),
                walk_inv(v.entries, idx as int, seen, stack@),
                self.dir_map == old(self).dir_map,
                self.children == old(self).children,
                self@ == (IndexView { entries: marked(v.entries, seen), ..v }),
            decreases v.entries.len() - seen.len(),
        {
            proof {
                lemma_walk_step(v.entries, idx as int, seen, stack@);
                let range = vstd::set_lib::set_int_range(0, v.entries.len() as int);
                vstd::set_lib::lemma_int_range(0, v.entries.len() as int);
                let more = seen.insert(stack@.last() as int);
                assert(more.subset_of(range)) by {
                    assert(stack@[stack@.len() - 1] == stack@.last());
                }
                vstd::set_lib::lemma_len_subset(more, range);
                assert(!seen.contains(stack@.last() as int)) by {
                    assert(stack@[stack@.len() - 1] == stack@.last());
                }
            }
            let ghost waiting = stack@;
            let i = stack.pop().unwrap();
            let pos = i as usize;
            assert(waiting[waiting.len() - 1] == i);
            assert(self@.entries.len() == self.entries@.len());
            let ghost before = self.entries@;
            self.entries[pos].set_deleted(true);
            proof {
                lemma_entry_update(before, pos as int, self.entries@[pos as int]);
                assert(self.entries@ =~= before.update(pos as int, self.entries@[pos as int]));
                assert(entry_views(before)[pos as int] == before[pos as int]@);
                assert(self@.entries =~= marked(v.entries, seen.insert(i as int)));
                seen = seen.insert(i as int);
            }
            proof {
                lemma_wf_same_links(v, self@);
                lemma_kids_same(v.entries, self@.entries, i);
            }
            if let Some(list) = self.kids_of(i) {
                append_others(&mut stack, list.as_slice(), idx);
            } else {
                assert(kids(v.entries, i) =~= Seq::<u32>::empty());
                assert(stack@ + others(kids(v.entries, i), idx) =~= stack@);
            }
        }
        proof {
            assert forall|j: int| 0 <= j < v.entries.len() implies seen.contains(j) == below(
                v.entries,
                idx as int,
                j,
            ) by {
                if below(v.entries, idx as int, j) {
                    let n = choose|n: nat| #[trigger] up(v.entries, j, n) == idx;
                    lemma_walk_done(v.entries, idx as int, seen, stack@, j, n);
                }
            }
            assert(marked(v.entries, seen) =~= mark_below(v.entries, idx as int));
            lemma_wf_same_links(v, self@);
        }
    }
}

// ---------------------------------------------------------------------------
// Single paths
// ---------------------------------------------------------------------------

/// What the file system says of a path.
#[derive(Clone, Copy)]
pub struct FileMeta {
    pub is_dir: bool,
    pub len: u64,
    /// Unix seconds of last modification.
    pub modified: i64,
}

impl FileMeta {
    /// The size that is recorded: directories have none.
    pub open spec fn size_spec(self) -> u64 {
        if self.is_dir {
            0
        } else {
            self.len
        }
    }

    pub fn size(&self) -> (r: u64)
        ensures
            r == self.size_spec(),
    {
        if self.is_dir {
            0
        } else {
            self.len
        }
    }
}

/// The first of the given children with this name and kind.
pub open spec fn find_kid(
    entries: Seq<EntryView>,
    list: Seq<u32>,
    name: Seq<char>,
    dir: bool,
) -> Option<u32>
    decreases list.len(),
{
    if list.len() == 0 {
        None
    } else if entries[list[0] as int].dir == dir && entries[list[0] as int].name == name {
        Some(list[0])
    } else {
        find_kid(entries, list.drop_first(), name, dir)
    }
}

/// The indexed directory that a path lies in, and the name of the path there.
pub open spec fn place_of(v: IndexView, path: Seq<char>) -> Option<(u32, Seq<char>)> {
    match (parent_of(path), file_name_of(path)) {
        (Some(pp), Some(name)) => if v.dir_map.contains_key(normal(pp)) {
            Some((v.dir_map[normal(pp)], name))
        } else {
            None
        },
        _ => None,
    }
}

/// The index after a path was found to exist. A known directory is refreshed.
/// Otherwise the entry of that name and kind in the indexed parent is, or one is
/// added; a directory is then known by its path. A path whose parent is not
/// indexed is ignored.
pub open spec fn upserted(v: IndexView, path: Seq<char>, meta: FileMeta) -> IndexView {
    if v.dir_map.contains_key(normal(path)) {
        let idx = v.dir_map[normal(path)] as int;
        IndexView {
            entries: v.entries.update(
                idx,
                EntryView { modified: meta.modified, deleted: false, ..v.entries[idx] },
            ),
            ..v
        }
    } else {
        match place_of(v, path) {
            None => v,
            Some((p, name)) => match find_kid(v.entries, kids(v.entries, p), name, meta.is_dir) {
                Some(k) => IndexView {
                    entries: v.entries.update(
                        k as int,
                        EntryView {
                            size: meta.size_spec(),
                            modified: meta.modified,
                            deleted: false,
                            ..v.entries[k as int]
                        },
                    ),
                    dir_map: if meta.is_dir {
                        v.dir_map.insert(normal(path), k)
                    } else {
                        v.dir_map
                    },
                    ..v
                },
                None => {
                    let grown = v.pushed(name, p, meta.size_spec(), meta.modified, meta.is_dir);
                    if meta.is_dir {
                        IndexView {
                            dir_map: v.dir_map.insert(normal(path), v.entries.len() as u32),
                            ..grown
                        }
                    } else {
                        grown
                    }
                },
            },
        }
    }
}

/// Whether `j` lies below a child of `p` with the given name.
pub open spec fn below_named(
    entries: Seq<EntryView>,
    p: u32,
    name: Seq<char>,
    j: int,
) -> bool {
    exists|k: int|
        0 <= k < entries.len() && entries[k].parent == p && entries[k].name == name
            && #[trigger] below(entries, k, j)
}

/// The index after a path was found to be gone: the entries of that path, and
/// all below them, are marked deleted.
pub open spec fn removed(v: IndexView, path: Seq<char>) -> IndexView {
    if v.dir_map.contains_key(normal(path)) {
        IndexView {
            entries: mark_below(v.entries, v.dir_map[normal(path)] as int),
            dir_map: v.dir_map.remove(normal(path)),
            ..v
        }
    } else {
        match place_of(v, path) {
            None => v,
            Some((p, name)) => IndexView {
                entries: Seq::new(
                    v.entries.len(),
                    |j: int|
                        EntryView {
                            deleted: v.entries[j].deleted || below_named(v.entries, p, name, j),
                            ..v.entries[j]
                        },
                ),
                ..v
            },
        }
    }
}

/// Whether an entry stands for a path: the directory of that path, or what has
/// its name in the indexed parent.
pub open spec fn stands_for(v: IndexView, path: Seq<char>, i: int) -> bool {
    &&& 0 <= i < v.entries.len()
    &&& if v.dir_map.contains_key(normal(path)) {
        i == v.dir_map[normal(path)]
    } else {
        parent_of(path) matches Some(folder) && file_name_of(path) matches Some(name)
            && v.dir_map.contains_key(normal(folder)) && v.entries[i].parent == v.dir_map[normal(
            folder,
        )] && v.entries[i].name == name
    }
}

/// A list without every occurrence of a text.
pub open spec fn without(list: Seq<Seq<char>>, x: Seq<char>) -> Seq<Seq<char>>
    decreases list.len(),
{
    if list.len() == 0 {
        list
    } else if list.last() == x {
        without(list.drop_last(), x)
    } else {
        without(list.drop_last(), x).push(list.last())
    }
}

/// The index without one root: its entries are marked deleted, its directories
/// forgotten, and the root is no longer finished.
pub open spec fn purged(v: IndexView, root: Seq<char>) -> IndexView {
    IndexView {
        entries: if v.dir_map.contains_key(normal(root)) {
            mark_below(v.entries, v.dir_map[normal(root)] as int)
        } else {
            v.entries
        },
        dir_map: outside(v.dir_map, root),
        completed_roots: without(v.completed_roots, root),
        ..v
    }
}

/// Removes every occurrence of `x`.
fn drop_text(list: &mut Vec<String>, x: &str)
    ensures
        views(final(list)@) == without(views(old(list)@), x@),
{
    let mut kept: Vec<String> = Vec::new();
    let ghost all = views(list@);
    for i in 0..list.len()
        invariant
            all == views(list@),
            views(kept@) == without(all.take(i as int), x@),
    {
        assert(all.take(i + 1).drop_last() =~= all.take(i as int));
        assert(all.take(i + 1).last() == list@[i as int]@);
        if !same_text(list[i].as_str(), x) {
            let ghost before = kept@;
            let item = list[i].clone();
            kept.push(item);
            assert(views(kept@) =~= views(before).push(item@));
        }
    }
    assert(all.take(all.len() as int) =~= all);
    *list = kept;
}

impl Index {
    /// The number and name of a path's place: its indexed parent directory.
    fn place(&self, path: &str) -> (r: Option<(u32, String)>)
        requires
            self.wf(),
        ensures
            (match r {
                Some((p, name)) => place_of(self@, path@) == Some((p, name@)) && p
                    < self@.entries.len() && self@.entries[p as int].dir,
                None => place_of(self@, path@) is None,
            }),
    {
        match parent_path(path) {
            None => None,
            Some(pp) => match self.dir_map.get(pp.as_str()) {
                None => None,
                Some(p) => match file_name(path) {
                    None => None,
                    Some(name) => {
                        assert(self@.dir_map.contains_key(normal(pp@)));
                        Some((p, name))
                    },
                },
            },
        }
    }

    /// Inserts or refreshes a single path (used by the file watcher). `meta` is
    /// what the file system says of the path, if it exists.
    pub fn upsert_path(&mut self, path: &str, meta: Option<FileMeta>)
        requires
            old(self).wf(),
            old(self)@.entries.len() < NO_PARENT,
        ensures
            final(self).wf(),
            final(self)@ == (match meta {
                Some(m) => upserted(old(self)@, path@, m),
                None => old(self)@,
            }),
            keeps_order(old(self)@.entries, final(self)@.entries),
            old(self)@.entries.len() <= final(self)@.entries.len() <= old(self)@.entries.len() + 1,
    {
        proof {
            if meta is Some {
                lemma_upserted_order(self@, path@, meta->0);
            }
        }
        let meta = match meta {
            Some(m) => m,
            None => return ,
        };
        let ghost v = self@;
        if let Some(idx) = self.dir_map.get(path) {
            assert(v.dir_map.contains_key(normal(path@)));
            let pos = idx as usize;
            let ghost before = self.entries@;
            let size = self.entries[pos].size;
            self.entries[pos].set_stats(size, meta.modified);
            self.entries[pos].set_deleted(false);
            proof {
                assert(entry_views(before)[pos as int] == before[pos as int]@);
                assert(self.entries@ =~= before.update(pos as int, self.entries@[pos as int]));
                lemma_entry_update(before, pos as int, self.entries@[pos as int]);
                lemma_wf_same_links(v, self@);
            }
            return ;
        }
        let (p, name) = match self.place(path) {
            Some(x) => x,
            None => return ,
        };
        let mut found: Option<u32> = None;
        proof {
            lemma_kids(v.entries, p);
        }
        if let Some(list) = self.kids_of(p) {
            let mut n: usize = 0;
            assert(list@.skip(0) =~= list@);
            while n < list.len() && found.is_none()
                invariant
                    v == self@,
                    self.wf(),
                    list@ == kids(v.entries, p),
                    n <= list@.len(),
                    forall|i: int| 0 <= i < list@.len() ==> (#[trigger] list@[i]) < v.entries.len(),
                    found is Some ==> find_kid(v.entries, list@, name@, meta.is_dir) == found,
                    found is None ==> find_kid(v.entries, list@, name@, meta.is_dir) == find_kid(
                        v.entries,
                        list@.skip(n as int),
                        name@,
                        meta.is_dir,
                    ),
                decreases list@.len() - n,
            {
                let k = list[n];
                let e = &self.entries[k as usize];
                assert(v.entries[k as int] == e@);
                assert(list@.skip(n as int)[0] == k);
                assert(list@.skip(n as int).drop_first() =~= list@.skip(n + 1));
                if e.is_dir() == meta.is_dir && same_text(e.name.as_str(), name.as_str()) {
                    found = Some(k);
                }
                n = n + 1;
            }
        }
        if let Some(k) = found {
            proof {
                lemma_find_kid(v.entries, kids(v.entries, p), name@, meta.is_dir);
            }
            let pos = k as usize;
            let ghost before = self.entries@;
            self.entries[pos].set_stats(meta.size(), meta.modified);
            self.entries[pos].set_deleted(false);
            proof {
                assert(entry_views(before)[pos as int] == before[pos as int]@);
                assert(self.entries@ =~= before.update(pos as int, self.entries@[pos as int]));
                lemma_entry_update(before, pos as int, self.entries@[pos as int]);
                lemma_wf_same_links(v, self@);
            }
            if meta.is_dir {
                self.dir_map.insert(path, k);
            }
            return ;
        }
        assert(find_kid(v.entries, kids(v.entries, p), name@, meta.is_dir) is None);
        let idx = self.push_entry(name.as_str(), p, meta.size(), meta.modified, meta.is_dir);
        if meta.is_dir {
            self.dir_map.insert(path, idx);
        }
    }

    /// Marks a path (and any subtree) deleted (used by the file watcher).
    pub fn remove_path(&mut self, path: &str)
        requires
            old(self).wf(),
        ensures
            final(self).wf(),
            final(self)@ == removed(old(self)@, path@),
            keeps_order(old(self)@.entries, final(self)@.entries),
    {
        proof {
            lemma_order_same(self@.entries, removed(self@, path@).entries);
        }
        let ghost v = self@;
        if let Some(idx) = self.dir_map.get(path) {
            assert(v.dir_map.contains_key(normal(path@)));
            self.mark_deleted_recursive(idx);
            self.dir_map.remove(path);
            return ;
        }
        let (p, name) = match self.place(path) {
            Some(x) => x,
            None => return ,
        };
        let mut list: Vec<u32> = Vec::new();
        if let Some(found) = self.kids_of(p) {
            append_numbers(&mut list, found.as_slice());
        }
        assert(list@ =~= kids(v.entries, p));
        let ghost done = |n: int, j: int|
            exists|i: int|
                0 <= i < n && v.entries[kids(v.entries, p)[i] as int].name == name@
                    && #[trigger] below(v.entries, kids(v.entries, p)[i] as int, j);
        proof {
            lemma_kids(v.entries, p);
            assert(self@.entries =~= Seq::new(
                v.entries.len(),
                |j: int| EntryView { deleted: v.entries[j].deleted || done(0, j), ..v.entries[j] },
            ));
        }
        for n in 0..list.len()
            invariant
                self.wf(),
                v.wf(),
                !v.dir_map.contains_key(normal(path@)),
                place_of(v, path@) == Some((p, name@)),
                list@ == kids(v.entries, p),
                forall|i: int|
                    0 <= i < list@.len() ==> (#[trigger] list@[i]) < v.entries.len()
                        && v.entries[list@[i] as int].parent == p,
                done == (|n: int, j: int|
                    exists|i: int|
                        0 <= i < n && v.entries[kids(v.entries, p)[i] as int].name == name@
                            && #[trigger] below(v.entries, kids(v.entries, p)[i] as int, j)),
                self@ == (IndexView {
                    entries: Seq::new(
                        v.entries.len(),
                        |j: int|
                            EntryView {
                                deleted: v.entries[j].deleted || done(n as int, j),
                                ..v.entries[j]
                            },
                    ),
                    ..v
                }),
        {
            let k = list[n];
            let ghost before = self@.entries;
            assert(before[k as int] == self.entries@[k as int]@);
            let hit = same_text(self.entries[k as usize].name.as_str(), name.as_str());
            assert forall|j: int| 0 <= j < v.entries.len() implies #[trigger] done(n + 1, j) == (
            done(n as int, j) || (hit && below(v.entries, k as int, j))) by {
                if done(n + 1, j) {
                    let i = choose|i: int|
                        0 <= i < n + 1 && v.entries[kids(v.entries, p)[i] as int].name == name@
                            && #[trigger] below(v.entries, kids(v.entries, p)[i] as int, j);
                    if i < n {
                        assert(done(n as int, j));
                    }
                }
                if done(n as int, j) {
                    let i = choose|i: int|
                        0 <= i < n && v.entries[kids(v.entries, p)[i] as int].name == name@
                            && #[trigger] below(v.entries, kids(v.entries, p)[i] as int, j);
                    assert(done(n + 1, j));
                }
                if hit && below(v.entries, k as int, j) {
                    assert(kids(v.entries, p)[n as int] == k);
                    assert(done(n + 1, j));
                }
            }
            if hit {
                proof {
                    assert forall|j: int| #[trigger] below(before, k as int, j) == below(
                        v.entries,
                        k as int,
                        j,
                    ) by {
                        lemma_below_same(v.entries, before, k as int, j);
                    }
                }
                self.mark_deleted_recursive(k);
            }
            assert(self@.entries =~= Seq::new(
                v.entries.len(),
                |j: int|
                    EntryView { deleted: v.entries[j].deleted || done(n + 1, j), ..v.entries[j] },
            ));
        }
        proof {
            let all = kids(v.entries, p);
            assert forall|j: int| 0 <= j < v.entries.len() implies done(all.len() as int, j)
                == below_named(v.entries, p, name@, j) by {
                if below_named(v.entries, p, name@, j) {
                    let k = choose|k: int|
                        0 <= k < v.entries.len() && v.entries[k].parent == p && v.entries[k].name
                            == name@ && #[trigger] below(v.entries, k, j);
                    assert(all.contains(k as u32));
                    let i = choose|i: int| 0 <= i < all.len() && all[i] == k as u32;
                    assert(below(v.entries, all[i] as int, j));
                }
                if done(all.len() as int, j) {
                    let i = choose|i: int|
                        0 <= i < all.len() && v.entries[all[i] as int].name == name@
                            && #[trigger] below(v.entries, all[i] as int, j);
                    assert(v.entries[all[i] as int].parent == p);
                }
            }
            assert(self@.entries =~= removed(v, path@).entries);
        }
    }

    /// Removes one root's subtree (used when resuming an interrupted build):
    /// its entries are marked deleted and its directories forgotten, so the
    /// root can be scanned again without duplicates.
    pub fn purge_root(&mut self, root: &str)
        requires
            old(self).wf(),
        ensures
            final(self).wf(),
            final(self)@ == purged(old(self)@, root@),
            keeps_order(old(self)@.entries, final(self)@.entries),
    {
        proof {
            lemma_order_same(self@.entries, purged(self@, root@).entries);
        }
        if let Some(idx) = self.dir_map.get(root) {
            assert(self@.dir_map.contains_key(normal(root@)));
            self.mark_deleted_recursive(idx);
        }
        let ghost before = self@;
        self.dir_map.remove_tree(root);
        drop_text(&mut self.completed_roots, root);
        assert forall|k: Seq<char>| #[trigger] self@.dir_map.contains_key(k) implies self@.dir_map[k]
            < self@.entries.len() && self@.entries[self@.dir_map[k] as int].dir by {
            assert(before.dir_map.contains_key(k));
        }
    }
}

proof fn lemma_find_kid(entries: Seq<EntryView>, list: Seq<u32>, name: Seq<char>, dir: bool)
    ensures
        find_kid(entries, list, name, dir) matches Some(k) ==> list.contains(k)
            && entries[k as int].dir == dir && entries[k as int].name == name,
    decreases list.len(),
{
    if list.len() > 0 {
        lemma_find_kid(entries, list.drop_first(), name, dir);
        if let Some(k) = find_kid(entries, list, name, dir) {
            if k != list[0] {
                let rest = list.drop_first();
                assert(rest.contains(k));
                let i = choose|i: int| 0 <= i < rest.len() && rest[i] == k;
                assert(list[i + 1] == k);
            }
        }
    }
}

proof fn lemma_below_same(a: Seq<EntryView>, b: Seq<EntryView>, idx: int, j: int)
    requires
        a.len() == b.len(),
        forall|i: int| 0 <= i < a.len() ==> (#[trigger] a[i]).parent == b[i].parent,
    ensures
        below(a, idx, j) == below(b, idx, j),
{
    assert forall|n: nat| #[trigger] up(a, j, n) == up(b, j, n) by {
        lemma_up_same(a, b, j, n);
    }
    if below(b, idx, j) {
        let n = choose|n: nat| #[trigger] up(b, j, n) == idx;
        assert(up(a, j, n) == idx);
    }
}

proof fn lemma_upserted_order(v: IndexView, path: Seq<char>, meta: FileMeta)
    requires
        v.wf(),
        v.entries.len() < NO_PARENT,
    ensures
        keeps_order(v.entries, upserted(v, path, meta).entries),
{
    let w = upserted(v, path, meta);
    if v.dir_map.contains_key(normal(path)) {
        lemma_order_same(v.entries, w.entries);
    } else if let Some((p, name)) = place_of(v, path) {
        assert(v.dir_map.contains_key(normal(parent_of(path)->0)));
        if let Some(k) = find_kid(v.entries, kids(v.entries, p), name, meta.is_dir) {
            lemma_find_kid(v.entries, kids(v.entries, p), name, meta.is_dir);
            lemma_kids(v.entries, p);
            lemma_order_same(v.entries, w.entries);
        } else {
            lemma_order_push(v.entries, w.entries.last());
            assert(w.entries =~= v.entries.push(w.entries.last()));
        }
    }
}

/// Nothing lies below an entry that was just added, where no pointer had its number
/// before.
proof fn lemma_below_new(entries: Seq<EntryView>, e: EntryView, j: int)
    requires
        is_free(entries),
        0 <= j <= entries.len(),
    ensures
        below(entries.push(e), entries.len() as int, j) <==> j == entries.len(),
{
    let now = entries.push(e);
    if j == entries.len() {
        assert(up(now, j, 0) == j);
    } else if below(now, entries.len() as int, j) {
        let n = choose|n: nat| #[trigger] up(now, j, n) == entries.len() as int;
        lemma_up_old(entries, e, j, n);
    }
}

proof fn lemma_live_push(entries: Seq<EntryView>, e: EntryView)
    ensures
        live(entries.push(e)) == live(entries) + (if e.deleted {
            0nat
        } else {
            1nat
        }),
{
    assert(entries.push(e).drop_last() =~= entries);
}

/// Whether a path is new to the index: its directory is indexed, and nothing of
/// its name is in it.
pub open spec fn is_new(v: IndexView, path: Seq<char>) -> bool {
    &&& !v.dir_map.contains_key(normal(path))
    &&& place_of(v, path) matches Some((p, name)) && forall|k: int|
        0 <= k < v.entries.len() ==> !((#[trigger] v.entries[k]).parent == p && v.entries[k].name
            == name)
}

/// Removing a path undoes adding it: adding a new path makes one more live
/// entry, and removing it again leaves the live entries and the directories as
/// they were.
pub proof fn law_remove_undoes_upsert(v: IndexView, path: Seq<char>, meta: FileMeta)
    requires
        v.wf(),
        is_free(v.entries),
        v.entries.len() < NO_PARENT,
        is_new(v, path),
    ensures
        live(upserted(v, path, meta).entries) == live(v.entries) + 1,
        live(removed(upserted(v, path, meta), path).entries) == live(v.entries),
        removed(upserted(v, path, meta), path).entries.take(v.entries.len() as int) == v.entries,
        removed(upserted(v, path, meta), path).dir_map == v.dir_map,
{
    let w = upserted(v, path, meta);
    let r = removed(w, path);
    let (p, name) = place_of(v, path)->0;
    let len = v.entries.len() as int;
    assert(v.dir_map.contains_key(normal(parent_of(path)->0)));
    lemma_kids(v.entries, p);
    lemma_find_kid(v.entries, kids(v.entries, p), name, meta.is_dir);
    if let Some(k) = find_kid(v.entries, kids(v.entries, p), name, meta.is_dir) {
        let list = kids(v.entries, p);
        let i = choose|i: int| 0 <= i < list.len() && list[i] == k;
        assert(v.entries[list[i] as int].parent == p);
    }
    let e = w.entries.last();
    assert(w.entries =~= v.entries.push(e));
    lemma_live_push(v.entries, e);
    assert forall|j: int| 0 <= j <= len implies #[trigger] below(w.entries, len, j) == (j
        == len) by {
        lemma_below_new(v.entries, e, j);
    }
    let gone = EntryView { deleted: true, ..e };
    if meta.is_dir {
        assert(r.entries =~= v.entries.push(gone));
        assert(r.dir_map =~= v.dir_map);
    } else {
        assert(place_of(w, path) == Some((p, name)));
        assert forall|j: int| 0 <= j <= len implies below_named(w.entries, p, name, j) == (j
            == len) by {
            if j == len {
                assert(below(w.entries, len, j));
            }
            if below_named(w.entries, p, name, j) {
                let k = choose|k: int|
                    0 <= k < w.entries.len() && w.entries[k].parent == p && w.entries[k].name
                        == name && #[trigger] below(w.entries, k, j);
                if k < len {
                    assert(w.entries[k] == v.entries[k]);
                }
            }
        }
        assert(r.entries =~= v.entries.push(gone));
    }
    lemma_live_push(v.entries, gone);
    assert(v.entries.push(gone).take(len) =~= v.entries);
}

/// Deleting keeps deleted entries deleted, and touches nothing but the marks.
pub proof fn law_removal_only_marks(v: IndexView, path: Seq<char>, j: int)
    requires
        0 <= j < v.entries.len(),
    ensures
        removed(v, path).entries.len() == v.entries.len(),
        removed(v, path).entries[j] == (EntryView {
            deleted: removed(v, path).entries[j].deleted,
            ..v.entries[j]
        }),
        v.entries[j].deleted ==> removed(v, path).entries[j].deleted,
{
}

// ---------------------------------------------------------------------------
// What updates come to
// ---------------------------------------------------------------------------

/// A path that was found to exist, in an indexed folder or indexed itself, has a
/// live entry that stands for it, with the time that was read. One that is not a
/// known directory has the size too: that of the file, or none for a directory.
pub proof fn law_upserted_path_is_live(v: IndexView, path: Seq<char>, meta: FileMeta)
    requires
        v.wf(),
        v.entries.len() < NO_PARENT,
        v.dir_map.contains_key(normal(path)) || (parent_of(path) is Some && file_name_of(
            path,
        ) is Some && v.dir_map.contains_key(normal(parent_of(path)->0))),
    ensures
        exists|i: int|
            0 <= i < upserted(v, path, meta).entries.len() && {
                let e = #[trigger] upserted(v, path, meta).entries[i];
                &&& !e.deleted
                &&& e.modified == meta.modified
                &&& v.dir_map.contains_key(normal(path)) ==> i == v.dir_map[normal(path)]
                &&& !v.dir_map.contains_key(normal(path)) ==> {
                    &&& e.parent == v.dir_map[normal(parent_of(path)->0)]
                    &&& Some(e.name) == file_name_of(path)
                    &&& e.dir == meta.is_dir
                    &&& meta.is_dir ==> e.size == 0
                    &&& !meta.is_dir ==> e.size == meta.len
                }
                &&& meta.is_dir ==> upserted(v, path, meta).dir_map.contains_key(normal(path))
                    && upserted(v, path, meta).dir_map[normal(path)] == i
            },
{
    let w = upserted(v, path, meta);
    if v.dir_map.contains_key(normal(path)) {
        let i = v.dir_map[normal(path)] as int;
        assert(!w.entries[i].deleted);
    } else {
        let (p, name) = place_of(v, path)->0;
        lemma_kids(v.entries, p);
        lemma_find_kid(v.entries, kids(v.entries, p), name, meta.is_dir);
        match find_kid(v.entries, kids(v.entries, p), name, meta.is_dir) {
            Some(k) => {
                let list = kids(v.entries, p);
                let n = choose|n: int| 0 <= n < list.len() && list[n] == k;
                assert(v.entries[list[n] as int].parent == p);
                assert(!w.entries[k as int].deleted);
            },
            None => {
                assert(!w.entries[v.entries.len() as int].deleted);
            },
        }
    }
}

/// A directory that was found to exist, in an indexed folder or indexed itself, is
/// known by its path and live, also where it had been removed before: what is
/// found in it later has a place.
pub proof fn law_found_directory_is_known(
    v: IndexView,
    path: Seq<char>,
    meta: FileMeta,
    child: Seq<char>,
)
    requires
        v.wf(),
        v.entries.len() < NO_PARENT,
        meta.is_dir,
        v.dir_map.contains_key(normal(path)) || place_of(v, path) is Some,
    ensures
        upserted(v, path, meta).dir_map.contains_key(normal(path)),
        ({
            let w = upserted(v, path, meta);
            !w.entries[w.dir_map[normal(path)] as int].deleted
        }),
        parent_of(child) matches Some(folder) && normal(folder) == normal(path) && file_name_of(
            child,
        ) is Some ==> place_of(upserted(v, path, meta), child) is Some,
{
    if !v.dir_map.contains_key(normal(path)) {
        let (p, name) = place_of(v, path)->0;
        lemma_kids(v.entries, p);
        lemma_find_kid(v.entries, kids(v.entries, p), name, meta.is_dir);
    }
}

/// A directory that was removed and is found again is live and known by its path,
/// under a number that has its name and its folder, so that what is found in it
/// later has a place.
pub proof fn law_removed_directory_comes_back(
    v: IndexView,
    path: Seq<char>,
    meta: FileMeta,
    child: Seq<char>,
)
    requires
        v.wf(),
        v.entries.len() < NO_PARENT,
        meta.is_dir,
        v.dir_map.contains_key(normal(path)),
        place_of(v, path) is Some,
    ensures
        ({
            let w = upserted(removed(v, path), path, meta);
            &&& w.dir_map.contains_key(normal(path))
            &&& w.dir_map[normal(path)] < w.entries.len()
            &&& {
                let e = w.entries[w.dir_map[normal(path)] as int];
                !e.deleted && e.dir && Some((e.parent, e.name)) == place_of(v, path)
            }
            &&& (parent_of(child) is Some && normal(parent_of(child)->0) == normal(path)
                && file_name_of(child) is Some) ==> place_of(w, child) is Some
        }),
{
    let r = removed(v, path);
    let folder = parent_of(path)->0;
    lemma_children_same(v.entries, r.entries);
    assert(r.wf()) by {
        assert forall|k: Seq<char>| #[trigger] r.dir_map.contains_key(k) implies r.dir_map[k]
            < r.entries.len() && r.entries[r.dir_map[k] as int].dir by {
            assert(v.dir_map.contains_key(k));
        }
    }
    assert(normal(folder) != normal(path)) by {
        if normal(folder) == normal(path) {
            lemma_parent_components(path);
            law_same_path_same_spelling(folder, path);
        }
    }
    assert(place_of(r, path) == place_of(v, path));
    let (p, name) = place_of(v, path)->0;
    law_found_directory_is_known(r, path, meta, child);
    lemma_kids(r.entries, p);
    lemma_find_kid(r.entries, kids(r.entries, p), name, true);
    if let Some(k) = find_kid(r.entries, kids(r.entries, p), name, true) {
        let list = kids(r.entries, p);
        let n = choose|n: int| 0 <= n < list.len() && list[n] == k;
        assert(r.entries[list[n] as int].parent == p);
    }
}

/// Whether an index is another with nothing but entry `i` added or refreshed, and
/// nothing but the key of `path` put into the directory map.
pub open spec fn differs_in_one(v: IndexView, w: IndexView, path: Seq<char>, i: int) -> bool {
    &&& 0 <= i < w.entries.len()
    &&& w.entries.len() == if i < v.entries.len() {
        v.entries.len()
    } else {
        v.entries.len() + 1
    }
    &&& forall|j: int|
        0 <= j < v.entries.len() && j != i ==> w.entries[j] == #[trigger] v.entries[j]
    &&& i < v.entries.len() ==> w.entries[i] == (EntryView {
        size: w.entries[i].size,
        modified: w.entries[i].modified,
        deleted: false,
        ..v.entries[i]
    })
    &&& w.dir_map == v.dir_map || w.dir_map == v.dir_map.insert(normal(path), i as u32)
    &&& w.roots == v.roots
    &&& w.scanned_at == v.scanned_at
    &&& w.complete == v.complete
    &&& w.completed_roots == v.completed_roots
}

/// A path that was found to exist changes one entry at most: nothing where
/// neither the path nor its folder is indexed, and else one entry is added or
/// refreshed while all others stay as they were.
pub proof fn law_update_touches_one_entry(v: IndexView, path: Seq<char>, meta: FileMeta)
    requires
        v.wf(),
        v.entries.len() < NO_PARENT,
    ensures
        !v.dir_map.contains_key(normal(path)) && place_of(v, path) is None ==> upserted(
            v,
            path,
            meta,
        ) == v,
        v.dir_map.contains_key(normal(path)) || place_of(v, path) is Some ==> exists|i: int|
            #[trigger] differs_in_one(v, upserted(v, path, meta), path, i),
{
    let w = upserted(v, path, meta);
    if v.dir_map.contains_key(normal(path)) {
        assert(differs_in_one(v, w, path, v.dir_map[normal(path)] as int));
    } else if let Some((p, name)) = place_of(v, path) {
        lemma_kids(v.entries, p);
        lemma_find_kid(v.entries, kids(v.entries, p), name, meta.is_dir);
        match find_kid(v.entries, kids(v.entries, p), name, meta.is_dir) {
            Some(k) => {
                assert(differs_in_one(v, w, path, k as int));
            },
            None => {
                assert(differs_in_one(v, w, path, v.entries.len() as int));
            },
        }
    }
}

proof fn lemma_find_kid_same(
    a: Seq<EntryView>,
    b: Seq<EntryView>,
    list: Seq<u32>,
    name: Seq<char>,
    dir: bool,
)
    requires
        forall|i: int|
            0 <= i < list.len() ==> a[(#[trigger] list[i]) as int].dir == b[list[i] as int].dir
                && a[list[i] as int].name == b[list[i] as int].name,
    ensures
        find_kid(a, list, name, dir) == find_kid(b, list, name, dir),
    decreases list.len(),
{
    if list.len() > 0 {
        assert(list.drop_first() =~= list.skip(1));
        assert(a[list[0] as int].dir == b[list[0] as int].dir);
        lemma_find_kid_same(a, b, list.drop_first(), name, dir);
    }
}

proof fn lemma_find_kid_last(
    entries: Seq<EntryView>,
    list: Seq<u32>,
    last: u32,
    name: Seq<char>,
    dir: bool,
)
    requires
        find_kid(entries, list, name, dir) is None,
        entries[last as int].dir == dir,
        entries[last as int].name == name,
    ensures
        find_kid(entries, list.push(last), name, dir) == Some(last),
    decreases list.len(),
{
    let more = list.push(last);
    if list.len() > 0 {
        assert(more.drop_first() =~= list.drop_first().push(last));
        lemma_find_kid_last(entries, list.drop_first(), last, name, dir);
    }
}

/// Finding the same once more changes nothing.
pub proof fn law_repeated_update_changes_nothing(v: IndexView, path: Seq<char>, meta: FileMeta)
    requires
        v.wf(),
        v.entries.len() < NO_PARENT,
    ensures
        upserted(upserted(v, path, meta), path, meta) == upserted(v, path, meta),
{
    let w = upserted(v, path, meta);
    let again = upserted(w, path, meta);
    if v.dir_map.contains_key(normal(path)) {
        assert(again.entries =~= w.entries);
    } else if let Some((p, name)) = place_of(v, path) {
        let list = kids(v.entries, p);
        lemma_kids(v.entries, p);
        lemma_find_kid(v.entries, list, name, meta.is_dir);
        match find_kid(v.entries, list, name, meta.is_dir) {
            Some(k) => {
                lemma_kids_same(v.entries, w.entries, p);
                lemma_find_kid_same(v.entries, w.entries, list, name, meta.is_dir);
                assert(again.entries =~= w.entries);
            },
            None => {
                let e = w.entries.last();
                let last = v.entries.len() as u32;
                assert(w.entries =~= v.entries.push(e));
                lemma_kids_push(v.entries, e, p);
                lemma_find_kid_same(v.entries, w.entries, list, name, meta.is_dir);
                lemma_find_kid_last(w.entries, list, last, name, meta.is_dir);
                assert(again.entries =~= w.entries);
            },
        }
    }
}

/// A path that was found to be gone has no live entry.
pub proof fn law_removed_path_is_not_live(v: IndexView, path: Seq<char>, i: int)
    requires
        stands_for(v, path, i),
        v.dir_map.contains_key(normal(path)) ==> v.dir_map[normal(path)] < v.entries.len(),
    ensures
        removed(v, path).entries[i].deleted,
{
    assert(up(v.entries, i, 0) == i);
    assert(below(v.entries, i, i));
}

// ---------------------------------------------------------------------------
// Paths and the directory map
// ---------------------------------------------------------------------------

/// Whether the chain of directories above an entry is at most `n` long.
pub open spec fn reaches_top(entries: Seq<EntryView>, idx: int, n: nat) -> bool
    decreases n,
{
    &&& 0 <= idx < entries.len()
    &&& has_dir_parent(entries, entries[idx]) ==> n > 0 && reaches_top(
        entries,
        entries[idx].parent as int,
        (n - 1) as nat,
    )
}

/// Whether the directory map leads from each path to the directory that has it.
/// Paths are put together over a bounded chain, so directories below a longer
/// one are left out.
pub open spec fn map_is_right(v: IndexView) -> bool {
    forall|k: Seq<char>| #[trigger]
        v.dir_map.contains_key(k) && reaches_top(v.entries, v.dir_map[k] as int, MAX_HOPS as nat)
            ==> normal(path_at(v.entries, v.dir_map[k] as int)) == k
}

proof fn lemma_hops(entries: Seq<EntryView>, idx: int, n: nat, m: nat)
    requires
        n <= m,
        reaches_top(entries, idx, n),
    ensures
        reaches_top(entries, idx, m),
        path_within(entries, idx, n) == path_within(entries, idx, m),
    decreases n,
{
    if has_dir_parent(entries, entries[idx]) {
        lemma_hops(entries, entries[idx].parent as int, (n - 1) as nat, (m - 1) as nat);
    }
}

/// The path of an entry is that of its directory with its name appended.
proof fn lemma_path_step(entries: Seq<EntryView>, idx: int)
    requires
        reaches_top(entries, idx, MAX_HOPS as nat),
        has_dir_parent(entries, entries[idx]),
    ensures
        reaches_top(entries, entries[idx].parent as int, MAX_HOPS as nat),
        path_at(entries, idx) == joined_path(
            path_at(entries, entries[idx].parent as int),
            entries[idx].name,
        ),
{
    lemma_hops(entries, entries[idx].parent as int, (MAX_HOPS - 1) as nat, MAX_HOPS as nat);
}

/// Paths do not depend on anything but names, kinds and parent pointers.
proof fn lemma_path_same(a: Seq<EntryView>, b: Seq<EntryView>, idx: int, n: nat)
    requires
        a.len() == b.len(),
        forall|i: int|
            0 <= i < a.len() ==> (#[trigger] a[i]).parent == b[i].parent && a[i].dir == b[i].dir
                && a[i].name == b[i].name,
    ensures
        path_within(a, idx, n) == path_within(b, idx, n),
        reaches_top(a, idx, n) == reaches_top(b, idx, n),
    decreases n,
{
    if 0 <= idx < a.len() {
        assert(a[idx].parent == b[idx].parent);
        let p = a[idx].parent as int;
        if a[idx].parent != NO_PARENT && p < a.len() {
            assert(a[p].dir == b[p].dir);
            if n > 0 {
                lemma_path_same(a, b, p, (n - 1) as nat);
            }
        }
    }
}

/// A new entry leaves the paths of those as they are whose pointers stay among the
/// entries from `from` on.
pub proof fn lemma_path_pushed(
    entries: Seq<EntryView>,
    e: EntryView,
    from: int,
    idx: int,
    n: nat,
)
    requires
        0 <= from <= idx < entries.len(),
        forall|i: int|
            from <= i < entries.len() ==> (#[trigger] entries[i]).parent == NO_PARENT || from
                <= entries[i].parent < entries.len(),
    ensures
        path_within(entries.push(e), idx, n) == path_within(entries, idx, n),
        reaches_top(entries.push(e), idx, n) == reaches_top(entries, idx, n),
    decreases n,
{
    let now = entries.push(e);
    assert(now[idx] == entries[idx]);
    let p = entries[idx].parent as int;
    if entries[idx].parent != NO_PARENT {
        assert(now[p] == entries[p]);
        if n > 0 {
            lemma_path_pushed(entries, e, from, p, (n - 1) as nat);
        }
    }
}

/// The map stays right when entries keep names, kinds and parents, and the map
/// only loses directories.
pub proof fn lemma_map_kept(v: IndexView, w: IndexView)
    requires
        map_is_right(v),
        v.entries.len() == w.entries.len(),
        forall|i: int|
            0 <= i < v.entries.len() ==> (#[trigger] v.entries[i]).parent == w.entries[i].parent
                && v.entries[i].dir == w.entries[i].dir && v.entries[i].name == w.entries[i].name,
        w.dir_map.submap_of(v.dir_map),
    ensures
        map_is_right(w),
{
    assert forall|k: Seq<char>| #[trigger]
        w.dir_map.contains_key(k) && reaches_top(
            w.entries,
            w.dir_map[k] as int,
            MAX_HOPS as nat,
        ) implies normal(path_at(w.entries, w.dir_map[k] as int)) == k by {
        assert(w.dir_map.dom().contains(k));
        assert(v.dir_map.contains_key(k));
        lemma_path_same(v.entries, w.entries, w.dir_map[k] as int, MAX_HOPS as nat);
    }
}

/// The map stays right when an entry is added, as a directory of its own path or
/// without a place in the map.
pub proof fn lemma_map_grown(v: IndexView, w: IndexView, e: EntryView, path: Seq<char>)
    requires
        v.wf(),
        map_is_right(v),
        linked(v.entries),
        w.entries == v.entries.push(e),
        w.dir_map == v.dir_map || w.dir_map == v.dir_map.insert(
            normal(path),
            v.entries.len() as u32,
        ),
        v.entries.len() < NO_PARENT,
        reaches_top(w.entries, v.entries.len() as int, MAX_HOPS as nat) ==> normal(
            path_at(w.entries, v.entries.len() as int),
        ) == normal(path),
    ensures
        map_is_right(w),
{
    assert forall|k: Seq<char>| #[trigger]
        w.dir_map.contains_key(k) && reaches_top(
            w.entries,
            w.dir_map[k] as int,
            MAX_HOPS as nat,
        ) implies normal(path_at(w.entries, w.dir_map[k] as int)) == k by {
        if w.dir_map == v.dir_map || k != normal(path) {
            assert(v.dir_map.contains_key(k));
            lemma_path_pushed(v.entries, e, 0, v.dir_map[k] as int, MAX_HOPS as nat);
        }
    }
}

/// The path of an entry that is added below a directory of the map: its folder's
/// path with its name appended.
pub proof fn lemma_child_path(
    v: IndexView,
    e: EntryView,
    folder: Seq<char>,
    path: Seq<char>,
)
    requires
        v.wf(),
        map_is_right(v),
        linked(v.entries),
        v.dir_map.contains_key(normal(folder)),
        e.parent == v.dir_map[normal(folder)],
        is_plain_name(e.name),
        components_of(path) == components_of(folder).push(e.name),
    ensures
        reaches_top(v.entries.push(e), v.entries.len() as int, MAX_HOPS as nat) ==> normal(
            path_at(v.entries.push(e), v.entries.len() as int),
        ) == normal(path),
{
    let now = v.entries.push(e);
    let i = v.entries.len() as int;
    let p = e.parent as int;
    if reaches_top(now, i, MAX_HOPS as nat) {
        assert(now[p] == v.entries[p]);
        assert(now[i] == e);
        lemma_path_step(now, i);
        lemma_path_pushed(v.entries, e, 0, p, MAX_HOPS as nat);
        let above = path_at(now, p);
        assert(normal(above) == normal(folder));
        law_same_path_same_spelling(above, folder);
        lemma_join_components(above, e.name);
        law_same_path_same_spelling(path_at(now, i), path);
    }
}

/// The path of an entry in a directory of the map: its folder's path with its
/// name appended.
proof fn lemma_found_path(v: IndexView, k: int, folder: Seq<char>, path: Seq<char>)
    requires
        v.wf(),
        map_is_right(v),
        0 <= k < v.entries.len(),
        v.dir_map.contains_key(normal(folder)),
        v.entries[k].parent == v.dir_map[normal(folder)],
        is_plain_name(v.entries[k].name),
        components_of(path) == components_of(folder).push(v.entries[k].name),
    ensures
        reaches_top(v.entries, k, MAX_HOPS as nat) ==> normal(path_at(v.entries, k)) == normal(
            path,
        ),
{
    if reaches_top(v.entries, k, MAX_HOPS as nat) {
        let p = v.entries[k].parent as int;
        lemma_path_step(v.entries, k);
        let above = path_at(v.entries, p);
        assert(normal(above) == normal(folder));
        law_same_path_same_spelling(above, folder);
        lemma_join_components(above, v.entries[k].name);
        law_same_path_same_spelling(path_at(v.entries, k), path);
    }
}

/// Updates keep the directory map right: what the watcher looks up under a path
/// is the directory of that path.
pub proof fn law_updates_keep_the_map_right(v: IndexView, path: Seq<char>, meta: FileMeta)
    requires
        v.wf(),
        linked(v.entries),
        v.entries.len() < NO_PARENT,
        map_is_right(v),
    ensures
        map_is_right(upserted(v, path, meta)),
        map_is_right(removed(v, path)),
        map_is_right(purged(v, path)),
{
    let r = removed(v, path);
    assert(r.dir_map.submap_of(v.dir_map));
    lemma_map_kept(v, r);
    let g = purged(v, path);
    assert(g.dir_map.submap_of(v.dir_map));
    lemma_map_kept(v, g);
    let w = upserted(v, path, meta);
    if v.dir_map.contains_key(normal(path)) {
        assert(w.dir_map.submap_of(v.dir_map));
        lemma_map_kept(v, w);
    } else if let Some((p, name)) = place_of(v, path) {
        let folder = parent_of(path)->0;
        lemma_parent_components(path);
        lemma_file_name_plain(path);
        assert(components_of(path) =~= components_of(folder).push(name));
        lemma_kids(v.entries, p);
        lemma_find_kid(v.entries, kids(v.entries, p), name, meta.is_dir);
        match find_kid(v.entries, kids(v.entries, p), name, meta.is_dir) {
            Some(k) => {
                let old_map = IndexView { dir_map: v.dir_map, ..w };
                assert(old_map.dir_map.submap_of(v.dir_map));
                lemma_map_kept(v, old_map);
                let list = kids(v.entries, p);
                let n = choose|n: int| 0 <= n < list.len() && list[n] == k;
                assert(v.entries[list[n] as int].parent == p);
                lemma_found_path(v, k as int, folder, path);
                lemma_path_same(v.entries, w.entries, k as int, MAX_HOPS as nat);
                assert forall|key: Seq<char>| #[trigger]
                    w.dir_map.contains_key(key) && reaches_top(
                        w.entries,
                        w.dir_map[key] as int,
                        MAX_HOPS as nat,
                    ) implies normal(path_at(w.entries, w.dir_map[key] as int)) == key by {
                    if !(meta.is_dir && key == normal(path)) {
                        assert(old_map.dir_map.contains_key(key));
                    }
                }
            },
            None => {
                let e = w.entries.last();
                assert(w.entries =~= v.entries.push(e));
                lemma_child_path(v, e, folder, path);
                lemma_map_grown(v, w, e, path);
            },
        }
    }
}

// ---------------------------------------------------------------------------
// Derived maps and metadata
// ---------------------------------------------------------------------------

proof fn lemma_live_dirs(entries: Seq<EntryView>, upto: nat)
    requires
        upto <= entries.len() <= NO_PARENT,
    ensures
        forall|k: Seq<char>| #[trigger]
            live_dirs(entries, upto).contains_key(k) ==> {
                let i = live_dirs(entries, upto)[k];
                i < upto && entries[i as int].dir && !entries[i as int].deleted && normal(
                    path_at(entries, i as int),
                ) == k
            },
        forall|i: int|
            0 <= i < upto && (#[trigger] entries[i]).dir && !entries[i].deleted ==> live_dirs(
                entries,
                upto,
            ).contains_key(normal(path_at(entries, i))),
    decreases upto,
{
    if upto > 0 {
        let last = (upto - 1) as nat;
        let before = live_dirs(entries, last);
        let now = live_dirs(entries, upto);
        lemma_live_dirs(entries, last);
        assert forall|k: Seq<char>| #[trigger] now.contains_key(k) implies {
            let i = now[k];
            i < upto && entries[i as int].dir && !entries[i as int].deleted && normal(
                path_at(entries, i as int),
            ) == k
        } by {
            if before.contains_key(k) {
                assert(before[k] < last);
            }
        }
    }
}

/// The rebuilt directory map holds the path of every live directory and
/// nothing else; what it leads to is a live directory of that path.
pub proof fn law_rebuilt_map_is_the_live_directories(entries: Seq<EntryView>, k: Seq<char>)
    requires
        entries.len() <= NO_PARENT,
    ensures
        live_dirs(entries, entries.len()).contains_key(k) <==> exists|i: int|
            0 <= i < entries.len() && (#[trigger] entries[i]).dir && !entries[i].deleted && normal(
                path_at(entries, i),
            ) == k,
        live_dirs(entries, entries.len()).contains_key(k) ==> {
            let i = live_dirs(entries, entries.len())[k] as int;
            i < entries.len() && entries[i].dir && !entries[i].deleted && normal(
                path_at(entries, i),
            ) == k
        },
{
    lemma_live_dirs(entries, entries.len());
    if live_dirs(entries, entries.len()).contains_key(k) {
        let i = live_dirs(entries, entries.len())[k] as int;
        assert(entries[i].dir);
    }
}

/// Rebuilding makes the directory map right.
pub proof fn law_rebuilt_map_is_right(v: IndexView)
    requires
        v.entries.len() <= NO_PARENT,
    ensures
        map_is_right(
            IndexView {
                children: children_of(v.entries),
                dir_map: live_dirs(v.entries, v.entries.len()),
                ..v
            },
        ),
{
    lemma_live_dirs(v.entries, v.entries.len());
}

impl Index {
    /// Reconstructs `children` and `dir_map` from `entries`.
    pub fn rebuild_derived(&mut self)
        requires
            old(self).entries@.len() <= NO_PARENT,
        ensures
            final(self).wf(),
            final(self)@ == (IndexView {
                children: children_of(old(self)@.entries),
                dir_map: live_dirs(old(self)@.entries, old(self)@.entries.len()),
                ..old(self)@
            }),
    {
        let ghost all = self@.entries;
        self.children.clear();
        self.dir_map.clear();
        let n: usize = self.entries.len();
        assert(list_views(self.children@) =~= children_of(all.take(0)));
        for i in 0..n
            invariant
                n == all.len(),
                n <= NO_PARENT,
                self@ == (IndexView {
                    children: children_of(all.take(i as int)),
                    dir_map: Map::empty(),
                    ..old(self)@
                }),
                self.dir_map.wf(),
                all == old(self)@.entries,
        {
            assert(all.take(i + 1) =~= all.take(i as int).push(all[i as int]));
            assert(self.entries@[i as int]@ == all[i as int]);
            proof {
                lemma_children_push(all.take(i as int), all[i as int]);
            }
            let parent = self.entries[i].parent;
            if parent != NO_PARENT {
                self.add_child(parent, i as u32);
            }
        }
        assert(all.take(all.len() as int) =~= all);
        for i in 0..n
            invariant
                n == all.len(),
                n <= NO_PARENT,
                self@ == (IndexView {
                    children: children_of(all),
                    dir_map: live_dirs(all, i as nat),
                    ..old(self)@
                }),
                self.dir_map.wf(),
                all == old(self)@.entries,
        {
            assert(self.entries@[i as int]@ == all[i as int]);
            if self.entries[i].is_dir() && !self.entries[i].is_deleted() {
                let path = self.full_path(i as u32);
                self.dir_map.insert(path.as_str(), i as u32);
            }
        }
        proof {
            lemma_live_dirs(all, n as nat);
        }
    }

    /// The entries in `start..end` whose metadata was left blank, with their
    /// paths.
    pub fn blank_entries(&self, start: usize, end: usize) -> (r: Vec<(u32, String)>)
        requires
            start <= end <= self@.entries.len() <= NO_PARENT,
        ensures
            r@.map_values(|x: (u32, String)| (x.0, x.1@)) == blanks(
                self@.entries,
                start as int,
                end as int,
            ),
    {
        let mut r: Vec<(u32, String)> = Vec::new();
        let ghost shape = |x: (u32, String)| (x.0, x.1@);
        assert(r@.map_values(shape) =~= blanks(self@.entries, start as int, start as int));
        for i in start..end
            invariant
                shape == (|x: (u32, String)| (x.0, x.1@)),
                start <= i <= end <= self@.entries.len() <= NO_PARENT,
                r@.map_values(shape) == blanks(self@.entries, start as int, i as int),
        {
            assert(self.entries@[i as int]@ == self@.entries[i as int]);
            if self.entries[i].modified == 0 && !self.entries[i].is_deleted() {
                let ghost before = r@;
                let path = self.full_path(i as u32);
                r.push((i as u32, path));
                assert(r@.map_values(shape) =~= before.map_values(shape).push((i as u32, path@)));
            }
        }
        r
    }

    /// Fills in size and time of modification where they were left blank.
    pub fn fill_metadata(&mut self, stats: &[(u32, u64, i64)])
        requires
            old(self).wf(),
            forall|i: int|
                0 <= i < stats@.len() ==> (#[trigger] stats@[i]).0 < old(self)@.entries.len(),
        ensures
            final(self).wf(),
            final(self)@ == (IndexView {
                entries: filled(old(self)@.entries, stats@),
                ..old(self)@
            }),
            keeps_order(old(self)@.entries, final(self)@.entries),
    {
        let ghost v = self@;
        for n in 0..stats.len()
            invariant
                v.wf(),
                self.dir_map.wf(),
                v == old(self)@,
                forall|i: int|
                    0 <= i < stats@.len() ==> (#[trigger] stats@[i]).0 < v.entries.len(),
                self@ == (IndexView { entries: filled(v.entries, stats@.take(n as int)), ..v }),
                self@.entries.len() == v.entries.len(),
                self@.wf(),
                keeps_order(v.entries, self@.entries),
        {
            assert(stats@.take(n + 1).drop_last() =~= stats@.take(n as int));
            assert(stats@.take(n + 1).last() == stats@[n as int]);
            let (i, size, modified) = stats[n];
            let pos = i as usize;
            let ghost before = self@;
            let ghost list = self.entries@;
            self.entries[pos].set_stats(size, modified);
            proof {
                assert(entry_views(list)[pos as int] == list[pos as int]@);
                assert(self.entries@ =~= list.update(pos as int, self.entries@[pos as int]));
                lemma_entry_update(list, pos as int, self.entries@[pos as int]);
                lemma_wf_same_links(before, self@);
                lemma_order_same(before.entries, self@.entries);
            }
        }
        assert(stats@.take(stats@.len() as int) =~= stats@);
    }
}

/// The entries from `start` up to `end` that are live and have no time of
/// modification.
pub open spec fn blanks(entries: Seq<EntryView>, start: int, end: int) -> Seq<(u32, Seq<char>)>
    decreases end - start,
{
    if end <= start {
        Seq::empty()
    } else {
        let before = blanks(entries, start, end - 1);
        let e = entries[end - 1];
        if e.modified == 0 && !e.deleted {
            before.push(((end - 1) as u32, path_at(entries, end - 1)))
        } else {
            before
        }
    }
}

/// The entries with the given sizes and times, later ones overwriting earlier.
pub open spec fn filled(entries: Seq<EntryView>, stats: Seq<(u32, u64, i64)>) -> Seq<EntryView>
    decreases stats.len(),
{
    if stats.len() == 0 {
        entries
    } else {
        let before = filled(entries, stats.drop_last());
        let (i, size, modified) = stats.last();
        before.update(i as int, EntryView { size, modified, ..before[i as int] })
    }
}

/// Seconds since the epoch, given what is known of a time: nothing where the
/// time is unknown or lies before the epoch.
pub fn system_time_secs(since_epoch: Option<u64>) -> (r: i64)
    ensures
        since_epoch is None ==> r == 0,
        since_epoch matches Some(s) ==> r == (if s <= i64::MAX {
            s as int
        } else {
            s - 0x1_0000_0000_0000_0000
        }),
{
    match since_epoch {
        Some(s) => {
            assert((s <= 0x7fff_ffff_ffff_ffff ==> s as i64 == s) && (s > 0x7fff_ffff_ffff_ffff
                ==> s as i64 == s - 0x1_0000_0000_0000_0000)) by (bit_vector);
            s as i64
        },
        None => 0,
    }
}

// ---------------------------------------------------------------------------
// Launch
// ---------------------------------------------------------------------------

/// What the app should do at launch with a loaded index.
#[derive(Debug, Clone, Copy, PartialEq, Eq, Structural)]
pub enum LaunchPlan {
    /// Complete and young enough: no scanning of any kind.
    UseAsIs,
    /// Complete but older than the user's opt-in refresh threshold.
    Refresh,
    /// Saved mid-build: keep it and finish only the missing roots.
    Resume,
}

/// The plan for an index of the given state and age; a threshold of no hours
/// switches refreshing off.
pub open spec fn plan_of(
    complete: bool,
    scanned_at: int,
    now: int,
    auto_refresh_hours: int,
) -> LaunchPlan {
    if !complete {
        LaunchPlan::Resume
    } else if auto_refresh_hours > 0 && now - scanned_at > auto_refresh_hours * 3600 {
        LaunchPlan::Refresh
    } else {
        LaunchPlan::UseAsIs
    }
}

/// Once a build has completed and refreshing is off, no launch scans, however
/// much later it comes; an incomplete build is always resumed.
pub proof fn law_no_scan_after_completed_build(scanned_at: int, now: int, hours: int)
    ensures
        plan_of(true, scanned_at, now, 0) == LaunchPlan::UseAsIs,
        plan_of(true, scanned_at, now, hours) != LaunchPlan::Resume,
        plan_of(false, scanned_at, now, hours) == LaunchPlan::Resume,
{
}

/// With refreshing after some hours, a complete index is scanned again exactly when
/// more than that many times 3600 seconds have gone by since.
pub proof fn law_refresh_comes_after_the_hours(scanned_at: int, now: int, hours: int)
    requires
        hours > 0,
    ensures
        plan_of(true, scanned_at, now, hours) == LaunchPlan::Refresh <==> now > scanned_at + hours
            * 3600,
        plan_of(true, scanned_at, now, hours) == LaunchPlan::UseAsIs <==> now <= scanned_at + hours
            * 3600,
{
}

/// What to do at launch with a loaded index.
pub fn launch_plan(complete: bool, scanned_at: i64, now: i64, auto_refresh_hours: u32) -> (r:
    LaunchPlan)
    ensures
        r == plan_of(complete, scanned_at as int, now as int, auto_refresh_hours as int),
{
    if !complete {
        return LaunchPlan::Resume;
    }
    let threshold: i128 = auto_refresh_hours as i128 * 3600;
    if threshold > 0 && now as i128 - scanned_at as i128 > threshold {
        LaunchPlan::Refresh
    } else {
        LaunchPlan::UseAsIs
    }
}

// ---------------------------------------------------------------------------
// Storage
// ---------------------------------------------------------------------------

/// Changes whenever the stored layout does, so that an old file is discarded
/// instead of being misread.
pub const CACHE_FORMAT_VERSION: u32 = 3;

/// The stored form of an index: the format version, least significant byte
/// first, then the body.
pub open spec fn framed(body: Seq<u8>) -> Seq<u8> {
    seq![CACHE_FORMAT_VERSION as u8, 0u8, 0u8, 0u8] + body
}

/// Puts the version header before a serialized index.
pub fn frame_cache(body: &[u8]) -> (r: Vec<u8>)
    ensures
        r@ == framed(body@),
{
    let mut r: Vec<u8> = Vec::new();
    r.push(CACHE_FORMAT_VERSION as u8);
    r.push(0);
    r.push(0);
    r.push(0);
    let ghost head = r@;
    for i in 0..body.len()
        invariant
            r@ == head + body@.take(i as int),
    {
        r.push(body[i]);
        assert(head + body@.take(i + 1) =~= (head + body@.take(i as int)).push(body@[i as int]));
    }
    assert(body@.take(body@.len() as int) =~= body@);
    assert(r@ =~= framed(body@));
    r
}

/// The body of a stored index; `None` where the header is missing or names
/// another version.
pub fn unframe_cache(bytes: &[u8]) -> (r: Option<&[u8]>)
    ensures
        (match r {
            Some(body) => bytes@ == framed(body@),
            None => forall|body: Seq<u8>| bytes@ != #[trigger] framed(body),
        }),
{
    if bytes.len() < 4 || bytes[0] != CACHE_FORMAT_VERSION as u8 || bytes[1] != 0 || bytes[2] != 0
        || bytes[3] != 0 {
        assert forall|body: Seq<u8>| bytes@ != #[trigger] framed(body) by {
            let f = framed(body);
            assert(f.len() >= 4 && f[0] == CACHE_FORMAT_VERSION as u8 && f[1] == 0 && f[2] == 0
                && f[3] == 0);
        }
        return None;
    }
    let body = vstd::slice::slice_subrange(bytes, 4, bytes.len());
    assert(bytes@ =~= framed(body@));
    Some(body)
}

/// What of an index is stored: all but the maps, which follow from the entries.
#[verifier::ext_equal]
pub struct StoredView {
    pub entries: Seq<EntryView>,
    pub roots: Seq<Seq<char>>,
    pub scanned_at: i64,
    pub complete: bool,
    pub completed_roots: Seq<Seq<char>>,
}

/// What of an index is stored.
pub open spec fn stored(v: IndexView) -> StoredView {
    StoredView {
        entries: v.entries,
        roots: v.roots,
        scanned_at: v.scanned_at,
        complete: v.complete,
        completed_roots: v.completed_roots,
    }
}

/// The index that is made of what was stored.
pub open spec fn restored(s: StoredView) -> IndexView {
    IndexView {
        entries: s.entries,
        dir_map: live_dirs(s.entries, s.entries.len()),
        children: children_of(s.entries),
        roots: s.roots,
        scanned_at: s.scanned_at,
        complete: s.complete,
        completed_roots: s.completed_roots,
    }
}

/// Whether an index can be made of what was stored: the entries can be numbered.
pub open spec fn restorable(s: StoredView) -> bool {
    s.entries.len() <= NO_PARENT
}

impl Index {
    /// The index of stored parts, with its maps, wherever the parent pointers lead.
    /// `None` where there are more entries than can be numbered.
    pub fn restore(
        entries: Vec<Entry>,
        roots: Vec<String>,
        scanned_at: i64,
        complete: bool,
        completed_roots: Vec<String>,
    ) -> (r: Option<Index>)
        ensures
            ({
                let parts = StoredView {
                    entries: entry_views(entries@),
                    roots: views(roots@),
                    scanned_at,
                    complete,
                    completed_roots: views(completed_roots@),
                };
                &&& r is Some <==> restorable(parts)
                &&& r matches Some(index) ==> index.wf() && index@ == restored(parts)
            }),
    {
        let mut index = Index {
            entries,
            dir_map: DirMap::new(),
            children: HashMap::new(),
            roots,
            scanned_at,
            complete,
            completed_roots,
        };
        if index.entries.len() > NO_PARENT as usize {
            return None;
        }
        index.rebuild_derived();
        Some(index)
    }
}

/// A stored index is restored as it was: under any encoding that keeps the parts
/// apart, a file that holds what an index stores gives an index back, with the
/// entries and their marks, the roots, the time of the scan and how far it had
/// come. The maps are those of the entries, whatever the maps were before.
pub proof fn law_stored_index_is_restored(
    v: IndexView,
    read: StoredView,
    encoded: spec_fn(StoredView) -> Seq<u8>,
)
    requires
        v.entries.len() <= NO_PARENT,
        forall|s: StoredView, t: StoredView| #[trigger] encoded(s) == #[trigger] encoded(t) ==> s
            == t,
        framed(encoded(read)) == framed(encoded(stored(v))),
    ensures
        restorable(read),
        stored(restored(read)) == stored(v),
        restored(read) == (IndexView {
            dir_map: live_dirs(v.entries, v.entries.len()),
            children: children_of(v.entries),
            ..v
        }),
        restored(read).wf(),
{
    law_framing_is_injective(encoded(read), encoded(stored(v)));
    lemma_live_dirs(v.entries, v.entries.len());
}

/// Reading back what was stored gives the stored body.
pub proof fn law_framing_is_injective(a: Seq<u8>, b: Seq<u8>)
    ensures
        framed(a) == framed(b) <==> a == b,
{
    if framed(a) == framed(b) {
        assert(framed(a).skip(4) =~= a);
        assert(framed(b).skip(4) =~= b);
    }
}

// ---------------------------------------------------------------------------
// Places
// ---------------------------------------------------------------------------

/// Whether each entry of a chain is the parent of the next.
pub open spec fn leads_down(entries: Seq<EntryView>, chain: Seq<int>) -> bool {
    &&& chain.len() > 0
    &&& forall|k: int| 0 <= k < chain.len() ==> 0 <= #[trigger] chain[k] < entries.len()
    &&& forall|k: int|
        0 < k < chain.len() ==> entries[#[trigger] chain[k]].parent != NO_PARENT
            && entries[chain[k]].parent == chain[k - 1]
}

proof fn lemma_chain_below(entries: Seq<EntryView>, chain: Seq<int>)
    requires
        leads_down(entries, chain),
    ensures
        below(entries, chain[0], chain.last()),
    decreases chain.len(),
{
    if chain.len() == 1 {
        assert(up(entries, chain[0], 0) == chain[0]);
    } else {
        let front = chain.drop_last();
        assert forall|k: int| 0 <= k < front.len() implies 0 <= #[trigger] front[k]
            < entries.len() by {
            assert(front[k] == chain[k]);
        }
        assert forall|k: int| 0 < k < front.len() implies entries[#[trigger] front[k]].parent
            != NO_PARENT && entries[front[k]].parent == front[k - 1] by {
            assert(front[k] == chain[k]);
        }
        lemma_chain_below(entries, front);
        let j = chain[chain.len() - 1];
        assert(entries[j].parent == front.last());
        lemma_below_child(entries, chain[0], j);
    }
}

proof fn lemma_below_chain(entries: Seq<EntryView>, idx: int, j: int, n: nat) -> (chain: Seq<int>)
    requires
        0 <= j < entries.len(),
        0 <= idx < entries.len(),
        up(entries, j, n) == idx,
    ensures
        leads_down(entries, chain),
        chain[0] == idx,
        chain.last() == j,
    decreases n,
{
    if n == 0 {
        seq![j]
    } else if entries[j].parent == NO_PARENT {
        lemma_up_out(entries, j, n);
        seq![j]
    } else {
        let p = entries[j].parent as int;
        lemma_up_shift(entries, j, (n - 1) as nat);
        if p >= entries.len() {
            lemma_up_out(entries, p, (n - 1) as nat);
            seq![j]
        } else {
            let front = lemma_below_chain(entries, idx, p, (n - 1) as nat);
            let chain = front.push(j);
            assert forall|k: int| 0 < k < chain.len() implies entries[#[trigger] chain[k]].parent
                != NO_PARENT && entries[chain[k]].parent == chain[k - 1] by {
                if k < front.len() {
                    assert(chain[k] == front[k]);
                }
            }
            chain
        }
    }
}

/// When a path is removed, what stood for it is deleted, and so is everything
/// that parent pointers lead to it from.
pub proof fn law_removed_path_takes_all_below(v: IndexView, path: Seq<char>, chain: Seq<int>)
    requires
        leads_down(v.entries, chain),
        stands_for(v, path, chain[0]),
    ensures
        removed(v, path).entries[chain[0]].deleted,
        removed(v, path).entries[chain.last()].deleted,
{
    lemma_chain_below(v.entries, chain);
    assert(up(v.entries, chain[0], 0) == chain[0]);
    assert(below(v.entries, chain[0], chain[0]));
    assert(chain[chain.len() - 1] == chain.last());
}

/// When a path is removed, nothing else is deleted: what is, stood for the path
/// or is led to it by parent pointers. The directories of other paths stay known.
pub proof fn law_removed_path_takes_nothing_else(v: IndexView, path: Seq<char>, j: int)
    requires
        v.wf(),
        0 <= j < v.entries.len(),
    ensures
        removed(v, path).entries[j].deleted && !v.entries[j].deleted ==> exists|chain: Seq<int>|
            #[trigger] leads_down(v.entries, chain) && stands_for(v, path, chain[0])
                && chain.last() == j,
        forall|k: Seq<char>|
            k != normal(path) ==> #[trigger] removed(v, path).dir_map.contains_key(k)
                == v.dir_map.contains_key(k) && removed(v, path).dir_map[k] == v.dir_map[k],
        !removed(v, path).dir_map.contains_key(normal(path)),
{
    if removed(v, path).entries[j].deleted && !v.entries[j].deleted {
        let i = if v.dir_map.contains_key(normal(path)) {
            v.dir_map[normal(path)] as int
        } else {
            let (p, name) = place_of(v, path)->0;
            choose|k: int|
                0 <= k < v.entries.len() && v.entries[k].parent == p && v.entries[k].name == name
                    && #[trigger] below(v.entries, k, j)
        };
        let n = choose|n: nat| #[trigger] up(v.entries, j, n) == i;
        let chain = lemma_below_chain(v.entries, i, j, n);
        assert(leads_down(v.entries, chain) && stands_for(v, path, chain[0]));
    }
}

/// Updates keep the index well formed.
pub proof fn lemma_updates_wf(v: IndexView, path: Seq<char>, meta: FileMeta)
    requires
        v.wf(),
        v.entries.len() < NO_PARENT,
    ensures
        removed(v, path).wf(),
        removed(v, path).entries.len() == v.entries.len(),
        upserted(v, path, meta).wf(),
        upserted(v, path, meta).entries.len() <= v.entries.len() + 1,
{
    let r = removed(v, path);
    lemma_children_same(v.entries, r.entries);
    assert forall|k: Seq<char>| #[trigger] r.dir_map.contains_key(k) implies r.dir_map[k]
        < r.entries.len() && r.entries[r.dir_map[k] as int].dir by {
        assert(v.dir_map.contains_key(k));
    }
    let w = upserted(v, path, meta);
    if v.dir_map.contains_key(normal(path)) {
        lemma_children_same(v.entries, w.entries);
    } else if let Some((p, name)) = place_of(v, path) {
        lemma_kids(v.entries, p);
        lemma_find_kid(v.entries, kids(v.entries, p), name, meta.is_dir);
        if find_kid(v.entries, kids(v.entries, p), name, meta.is_dir) is Some {
            lemma_children_same(v.entries, w.entries);
        }
    }
    assert forall|k: Seq<char>| #[trigger] w.dir_map.contains_key(k) implies w.dir_map[k]
        < w.entries.len() && w.entries[w.dir_map[k] as int].dir by {
        if v.dir_map.contains_key(k) {
            assert(v.dir_map[k] < v.entries.len());
        }
    }
}

/// The number of live entries is the number of places that hold one.
pub proof fn law_live_entries_are_those_not_deleted(entries: Seq<EntryView>)
    ensures
        live(entries) == Set::new(
            |i: int| 0 <= i < entries.len() && !entries[i].deleted,
        ).len(),
        Set::new(|i: int| 0 <= i < entries.len() && !entries[i].deleted).finite(),
    decreases entries.len(),
{
    let now = Set::new(|i: int| 0 <= i < entries.len() && !entries[i].deleted);
    if entries.len() == 0 {
        assert(now =~= Set::<int>::empty());
    } else {
        let front = entries.drop_last();
        law_live_entries_are_those_not_deleted(front);
        let before = Set::new(|i: int| 0 <= i < front.len() && !front[i].deleted);
        let last = entries.len() - 1;
        assert forall|i: int| 0 <= i < front.len() implies front[i] == entries[i] by {}
        if entries.last().deleted {
            assert(now =~= before);
        } else {
            assert(now =~= before.insert(last));
        }
    }
}

/// The path of an entry is that of its directory with its name appended, as long as
/// no more than 256 directories stand above it. The path of an entry without a
/// directory is its name.
pub proof fn law_paths_go_by_directories(entries: Seq<EntryView>, i: int)
    requires
        0 <= i < entries.len(),
    ensures
        !(entries[i].parent < entries.len() && entries[i].parent != 0xffff_ffff
            && entries[entries[i].parent as int].dir) ==> path_at(entries, i) == joined_path(
            Seq::empty(),
            entries[i].name,
        ),
        entries[i].parent < entries.len() && entries[i].parent != 0xffff_ffff
            && entries[entries[i].parent as int].dir && reaches_top(entries, i, 256) ==> path_at(
            entries,
            i,
        ) == joined_path(path_at(entries, entries[i].parent as int), entries[i].name),
{
    if has_dir_parent(entries, entries[i]) && reaches_top(entries, i, 256) {
        lemma_path_step(entries, i);
    }
}

/// Metadata that is filled in later goes to the entries that it is for, the last for
/// each, and changes nothing else.
pub proof fn law_filled_entries_have_their_numbers(
    entries: Seq<EntryView>,
    stats: Seq<(u32, u64, i64)>,
    i: int,
    k: int,
)
    requires
        0 <= i < entries.len(),
        forall|n: int| 0 <= n < stats.len() ==> (#[trigger] stats[n]).0 < entries.len(),
        -1 <= k < stats.len(),
        k >= 0 ==> stats[k].0 == i,
        forall|n: int| k < n < stats.len() ==> (#[trigger] stats[n]).0 != i,
    ensures
        filled(entries, stats).len() == entries.len(),
        k == -1 ==> filled(entries, stats)[i] == entries[i],
        k >= 0 ==> filled(entries, stats)[i] == (EntryView {
            size: stats[k].1,
            modified: stats[k].2,
            ..entries[i]
        }),
    decreases stats.len(),
{
    if stats.len() > 0 {
        let front = stats.drop_last();
        let last = stats.len() - 1;
        assert(stats[last] == stats.last());
        assert forall|n: int| 0 <= n < front.len() implies (#[trigger] front[n]).0
            < entries.len() by {
            assert(front[n] == stats[n]);
        }
        lemma_filled_rest(entries, front, i);
        if k < last {
            assert forall|n: int| k < n < front.len() implies (#[trigger] front[n]).0 != i by {
                assert(front[n] == stats[n]);
            }
            if k >= 0 {
                assert(front[k] == stats[k]);
            }
            law_filled_entries_have_their_numbers(entries, front, i, k);
        }
    }
}

proof fn lemma_filled_rest(entries: Seq<EntryView>, stats: Seq<(u32, u64, i64)>, i: int)
    requires
        0 <= i < entries.len(),
        forall|k: int| 0 <= k < stats.len() ==> (#[trigger] stats[k]).0 < entries.len(),
    ensures
        filled(entries, stats).len() == entries.len(),
        filled(entries, stats)[i] == (EntryView {
            size: filled(entries, stats)[i].size,
            modified: filled(entries, stats)[i].modified,
            ..entries[i]
        }),
    decreases stats.len(),
{
    if stats.len() > 0 {
        let front = stats.drop_last();
        assert forall|k: int| 0 <= k < front.len() implies (#[trigger] front[k]).0
            < entries.len() by {
            assert(front[k] == stats[k]);
        }
        lemma_filled_rest(entries, front, i);
        assert(stats[stats.len() - 1] == stats.last());
    }
}

/// What is still to be read is listed: every live entry without a time of change,
/// with its path, and nothing else.
pub proof fn law_blank_entries_are_listed(entries: Seq<EntryView>, start: int, end: int, i: int)
    requires
        0 <= start <= end <= entries.len() <= NO_PARENT,
        start <= i < end,
    ensures
        !entries[i].deleted && entries[i].modified == 0 <==> blanks(entries, start, end).contains(
            (i as u32, path_at(entries, i)),
        ),
    decreases end - start,
{
    let now = blanks(entries, start, end);
    let before = blanks(entries, start, end - 1);
    let item = (i as u32, path_at(entries, i));
    lemma_blanks_within(entries, start, end - 1);
    if i < end - 1 {
        law_blank_entries_are_listed(entries, start, end - 1, i);
        if before.contains(item) {
            let k = choose|k: int| 0 <= k < before.len() && before[k] == item;
            assert(now[k] == item);
        }
        if now.contains(item) {
            let k = choose|k: int| 0 <= k < now.len() && now[k] == item;
            if k < before.len() {
                assert(before[k] == item);
            }
        }
    } else {
        if !entries[i].deleted && entries[i].modified == 0 {
            assert(now.last() == item);
        } else if now.contains(item) {
            let k = choose|k: int| 0 <= k < now.len() && now[k] == item;
            assert(before[k].0 < end - 1);
        }
    }
}

proof fn lemma_blanks_within(entries: Seq<EntryView>, start: int, end: int)
    requires
        0 <= start,
        end <= entries.len() <= NO_PARENT,
    ensures
        forall|k: int|
            0 <= k < blanks(entries, start, end).len() ==> (#[trigger] blanks(
                entries,
                start,
                end,
            )[k]).0 < end,
    decreases end - start,
{
    if end > start {
        lemma_blanks_within(entries, start, end - 1);
        let before = blanks(entries, start, end - 1);
        let now = blanks(entries, start, end);
        assert forall|k: int| 0 <= k < now.len() implies (#[trigger] now[k]).0 < end by {
            if k < before.len() {
                assert(now[k] == before[k]);
            }
        }
    }
}

/// Purging a root forgets the directories below it and no others, and takes the
/// root from those that are finished, and no other.
pub proof fn law_purging_forgets_one_root(
    v: IndexView,
    root: Seq<char>,
    k: Seq<char>,
    other: Seq<char>,
)
    ensures
        purged(v, root).dir_map.contains_key(k) <==> v.dir_map.contains_key(k)
            && !crate::paths::is_under(k, root),
        purged(v, root).dir_map.contains_key(k) ==> purged(v, root).dir_map[k] == v.dir_map[k],
        !purged(v, root).completed_roots.contains(root),
        other != root ==> (purged(v, root).completed_roots.contains(other)
            <==> v.completed_roots.contains(other)),
{
    lemma_without_one(v.completed_roots, root, other);
}

proof fn lemma_without_one(list: Seq<Seq<char>>, x: Seq<char>, y: Seq<char>)
    ensures
        !without(list, x).contains(x),
        x != y ==> (without(list, x).contains(y) <==> list.contains(y)),
    decreases list.len(),
{
    if list.len() > 0 {
        let front = list.drop_last();
        lemma_without_one(front, x, y);
        let before = without(front, x);
        let now = without(list, x);
        if before.contains(y) {
            let k = choose|k: int| 0 <= k < before.len() && before[k] == y;
            assert(now[k] == y);
        }
        if list.last() == y && x != y {
            assert(now.last() == y);
        }
        if front.contains(y) {
            let k = choose|k: int| 0 <= k < front.len() && front[k] == y;
            assert(list[k] == y);
        }
        if list.contains(y) && list.last() != y {
            let k = choose|k: int| 0 <= k < list.len() && list[k] == y;
            assert(front[k] == y);
        }
        if now.contains(y) && list.last() != y {
            let k = choose|k: int| 0 <= k < now.len() && now[k] == y;
            if k < before.len() {
                assert(before[k] == y);
            }
        }
        if now.contains(x) {
            let k = choose|k: int| 0 <= k < now.len() && now[k] == x;
            if k < before.len() {
                assert(before[k] == x);
            }
        }
        assert(list[list.len() - 1] == list.last());
    }
}

/// A stored index begins with the number of its layout, 3, in four bytes, the lowest
/// first, and what follows is what was stored.
pub proof fn law_stored_indexes_begin_with_their_layout(body: Seq<u8>)
    ensures
        framed(body).len() == body.len() + 4,
        framed(body)[0] == 3 && framed(body)[1] == 0 && framed(body)[2] == 0 && framed(body)[3] == 0,
        framed(body).skip(4) == body,
{
    assert(framed(body).skip(4) =~= body);
}

}
