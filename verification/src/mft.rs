//! Fast enumeration of an NTFS volume: instead of walking directories, the
//! volume is asked for its file records in bulk. Each record carries a file's
//! name, its own reference number, and its parent's, which is enough to rebuild
//! the whole tree.
//!
//! The records carry no size or time, so entries start with blank metadata that
//! is filled in afterwards.

use crate::index::{
    keeps_order, lemma_path_pushed, path_at, EntryView, Index, IndexView, MAX_HOPS, NO_PARENT,
};
use crate::paths::{join_path, joined_path, normal};
use crate::text::views;
use crate::utf16::{from_utf16_lossy, law_utf16_round_trip, utf16_text, utf16_units};
use crate::util::{excluded, ExclusionMatcher};
use std::collections::HashMap;
use vstd::prelude::*;

verus! {

broadcast use vstd::std_specs::hash::group_hash_axioms;

// ---------------------------------------------------------------------------
// Records
// ---------------------------------------------------------------------------

/// Bytes of the fixed part of a record.
pub const RECORD_HEAD: usize = 64;

/// The attribute bit of a directory.
pub const ATTRIBUTE_DIRECTORY: u32 = 0x10;

/// Reference number of a volume's root directory.
pub const ROOT_FRN: u64 = 5;

/// Longest chain of unresolved ancestors that is followed.
pub const MAX_CHAIN: usize = 512;

/// One record pulled from the volume: name plus tree links.
pub struct Record {
    pub name: String,
    pub parent_frn: u64,
    pub is_dir: bool,
}

#[verifier::ext_equal]
pub struct RecordView {
    pub name: Seq<char>,
    pub parent_frn: u64,
    pub dir: bool,
}

impl View for Record {
    type V = RecordView;

    open spec fn view(&self) -> RecordView {
        RecordView { name: self.name@, parent_frn: self.parent_frn, dir: self.is_dir }
    }
}

/// The number that `n` bytes from `at` on stand for, least significant first.
pub open spec fn little_endian(b: Seq<u8>, at: int, n: nat) -> nat
    decreases n,
{
    if n == 0 {
        0
    } else {
        b[at] as nat + 256 * little_endian(b, at + 1, (n - 1) as nat)
    }
}

/// The 16-bit units in `n` bytes from `at` on; an odd last byte is left out.
pub open spec fn units(b: Seq<u8>, at: int, n: nat) -> Seq<u16> {
    Seq::new(n / 2, |i: int| (b[at + 2 * i] as int + 256 * b[at + 2 * i + 1]) as u16)
}

/// The record at `at`: its reference number and what it says.
pub open spec fn record_at(b: Seq<u8>, at: int) -> (u64, RecordView) {
    (
        little_endian(b, at + 8, 8) as u64,
        RecordView {
            name: utf16_text(
                units(b, at + little_endian(b, at + 58, 2), little_endian(b, at + 56, 2)),
            ),
            parent_frn: little_endian(b, at + 16, 8) as u64,
            dir: (little_endian(b, at + 52, 4) as u32) & ATTRIBUTE_DIRECTORY != 0,
        },
    )
}

/// Whether the name of the record at `at` lies within the buffer.
pub open spec fn name_fits(b: Seq<u8>, at: int) -> bool {
    at + little_endian(b, at + 58, 2) + little_endian(b, at + 56, 2) <= b.len()
}

/// The records from `at` on: tightly packed, each led by its length. A length
/// that is zero or leads out of the buffer ends them; a record whose name does
/// not fit is passed over.
pub open spec fn records_from(b: Seq<u8>, at: int) -> Seq<(u64, RecordView)>
    decreases b.len() - at,
{
    let len = little_endian(b, at, 4);
    if at < 0 || at + RECORD_HEAD > b.len() || len == 0 || at + len > b.len() {
        Seq::empty()
    } else {
        let rest = records_from(b, at + len);
        if name_fits(b, at) {
            seq![record_at(b, at)] + rest
        } else {
            rest
        }
    }
}

pub open spec fn record_views(list: Seq<(u64, Record)>) -> Seq<(u64, RecordView)> {
    list.map_values(|x: (u64, Record)| (x.0, x.1@))
}

proof fn lemma_le_bound(b: Seq<u8>, at: int, n: nat)
    ensures
        n <= 2 ==> little_endian(b, at, n) <= 0xffff,
        n <= 4 ==> little_endian(b, at, n) <= 0xffff_ffff,
        n <= 8 ==> little_endian(b, at, n) <= 0xffff_ffff_ffff_ffff,
{
    reveal_with_fuel(little_endian, 9);
}

/// The number that `n` bytes from `at` on stand for.
fn read_le(b: &[u8], at: usize, n: usize) -> (r: u64)
    requires
        n <= 8,
        at + n <= b@.len(),
    ensures
        r == little_endian(b@, at as int, n as nat),
    decreases n,
{
    if n == 0 {
        return 0;
    }
    let len: usize = b.len();
    let rest = read_le(b, at + 1, n - 1);
    proof {
        lemma_le_bound(b@, at as int, n as nat);
    }
    b[at] as u64 + 256 * rest
}

fn read_units(b: &[u8], at: usize, n: usize) -> (r: Vec<u16>)
    requires
        at + n <= b@.len(),
    ensures
        r@ == units(b@, at as int, n as nat),
{
    let len: usize = b.len();
    let mut r: Vec<u16> = Vec::new();
    let half: usize = n / 2;
    for i in 0..half
        invariant
            len == b@.len(),
            at + n <= len,
            half == n / 2,
            r@ == Seq::new(
                i as nat,
                |i: int| (b@[at + 2 * i] as int + 256 * b@[at + 2 * i + 1]) as u16,
            ),
    {
        r.push(b[at + 2 * i] as u16 + 256 * b[at + 2 * i + 1] as u16);
        assert(r@ =~= Seq::new(
            (i + 1) as nat,
            |i: int| (b@[at + 2 * i] as int + 256 * b@[at + 2 * i + 1]) as u16,
        ));
    }
    r
}

/// Reads the records out of a buffer as the volume fills it: the reference number
/// to go on from, then the records. Nothing comes of a buffer that holds no
/// record.
pub fn parse_records(b: &[u8]) -> (r: Option<(u64, Vec<(u64, Record)>)>)
    ensures
        (match r {
            Some((next, list)) => b@.len() > 8 && next == little_endian(b@, 0, 8) && record_views(
                list@,
            ) == records_from(b@, 8),
            None => b@.len() <= 8,
        }),
{
    let size: usize = b.len();
    if size <= 8 {
        return None;
    }
    let next = read_le(b, 0, 8);
    let mut list: Vec<(u64, Record)> = Vec::new();
    let mut at: usize = 8;
    let ghost all = records_from(b@, 8);
    assert(record_views(list@) + all =~= all);
    while RECORD_HEAD <= size - at
        invariant
            size == b@.len(),
            8 <= at <= size,
            all == records_from(b@, 8),
            record_views(list@) + records_from(b@, at as int) == all,
        ensures
            record_views(list@) == all,
        decreases size - at,
    {
        let ghost rest = records_from(b@, at as int);
        proof {
            lemma_le_bound(b@, at as int, 4);
            lemma_le_bound(b@, at + 56, 2);
            lemma_le_bound(b@, at + 58, 2);
            lemma_le_bound(b@, at + 52, 4);
        }
        let len = read_le(b, at, 4) as u32 as usize;
        if len == 0 || len > size - at {
            assert(record_views(list@) + Seq::<(u64, RecordView)>::empty() =~= record_views(list@));
            break;
        }
        let name_start = read_le(b, at + 58, 2) as u32 as usize;
        let name_len = read_le(b, at + 56, 2) as u32 as usize;
        if name_start <= size - at && name_len <= size - at - name_start {
            let name = from_utf16_lossy(read_units(b, at + name_start, name_len).as_slice());
            let attributes = read_le(b, at + 52, 4) as u32;
            let frn = read_le(b, at + 8, 8);
            let record = Record {
                name,
                parent_frn: read_le(b, at + 16, 8),
                is_dir: attributes & ATTRIBUTE_DIRECTORY != 0,
            };
            let ghost before = list@;
            let ghost rv = record@;
            list.push((frn, record));
            assert(record_views(list@) =~= record_views(before).push((frn, rv)));
            assert((frn, rv) == record_at(b@, at as int));
            assert(record_views(list@) + records_from(b@, at + len) =~= record_views(before) + (
            seq![record_at(b@, at as int)] + records_from(b@, at + len)));
        }
        at = at + len;
    }
    proof {
        if RECORD_HEAD > size - at {
            assert(record_views(list@) + Seq::<(u64, RecordView)>::empty() =~= record_views(list@));
        }
    }
    Some((next, list))
}

// ---------------------------------------------------------------------------
// The tree
// ---------------------------------------------------------------------------

/// The records by reference number; of two with one number the later counts.
pub open spec fn by_number(list: Seq<(u64, RecordView)>) -> Map<u64, RecordView>
    decreases list.len(),
{
    if list.len() == 0 {
        Map::empty()
    } else {
        by_number(list.drop_last()).insert(list.last().0, list.last().1)
    }
}

/// Whether a record lies at most `n` levels below the root.
pub open spec fn reaches_root(recs: Map<u64, RecordView>, frn: u64, n: nat) -> bool
    decreases n,
{
    frn == ROOT_FRN || (n > 0 && recs.contains_key(frn) && reaches_root(
        recs,
        recs[frn].parent_frn,
        (n - 1) as nat,
    ))
}

/// The path that a record has below its parent's entry.
pub open spec fn record_path(
    entries: Seq<EntryView>,
    slots: Map<u64, u32>,
    r: RecordView,
) -> Seq<char> {
    joined_path(path_at(entries, slots[r.parent_frn] as int), r.name)
}

/// Whether a record is left out although its parent is in the index: its path is
/// excluded.
pub open spec fn left_out(
    recs: Map<u64, RecordView>,
    entries: Seq<EntryView>,
    slots: Map<u64, u32>,
    exclusions: Seq<Seq<char>>,
    frn: u64,
) -> bool {
    &&& frn != ROOT_FRN
    &&& recs.contains_key(frn)
    &&& slots.contains_key(recs[frn].parent_frn)
    &&& excluded(record_path(entries, slots, recs[frn]), exclusions)
}

/// Whether a record or one of the `n` above it is left out.
pub open spec fn blocked(
    recs: Map<u64, RecordView>,
    entries: Seq<EntryView>,
    slots: Map<u64, u32>,
    exclusions: Seq<Seq<char>>,
    frn: u64,
    n: nat,
) -> bool
    decreases n,
{
    left_out(recs, entries, slots, exclusions, frn) || (n > 0 && recs.contains_key(frn) && blocked(
        recs,
        entries,
        slots,
        exclusions,
        recs[frn].parent_frn,
        (n - 1) as nat,
    ))
}

/// The entry of a record.
pub open spec fn entry_for(r: RecordView, slots: Map<u64, u32>) -> EntryView {
    EntryView {
        name: r.name,
        parent: slots[r.parent_frn],
        size: 0,
        modified: 0,
        dir: r.dir,
        deleted: false,
    }
}

/// Whether a directory was taken in under a reference number.
pub open spec fn is_dir_slot(
    recs: Map<u64, RecordView>,
    slots: Map<u64, u32>,
    frn: u64,
) -> bool {
    slots.contains_key(frn) && (frn == ROOT_FRN || recs[frn].dir)
}

/// The key under which a directory that was taken in can be found.
pub open spec fn slot_key(
    entries: Seq<EntryView>,
    root: Seq<char>,
    recs: Map<u64, RecordView>,
    slots: Map<u64, u32>,
    frn: u64,
) -> Seq<char> {
    if frn == ROOT_FRN {
        normal(root)
    } else {
        normal(record_path(entries, slots, recs[frn]))
    }
}

/// Whether a key leads to a directory that was taken in and has that key.
pub open spec fn leads_to_slot(
    now: IndexView,
    root: Seq<char>,
    recs: Map<u64, RecordView>,
    slots: Map<u64, u32>,
    key: Seq<char>,
) -> bool {
    exists|k: u64| #[trigger]
        is_dir_slot(recs, slots, k) && slot_key(now.entries, root, recs, slots, k) == key
            && now.dir_map[key] == slots[k]
}

/// Whether the directory map is that of `before` with the directories of a volume
/// added: the key of each leads to a directory that has this key, every other key
/// leads where it led, and there are no more.
pub open spec fn holds_keys(
    before: IndexView,
    now: IndexView,
    root: Seq<char>,
    recs: Map<u64, RecordView>,
    slots: Map<u64, u32>,
) -> bool {
    &&& forall|k: u64| #[trigger]
        is_dir_slot(recs, slots, k) ==> {
            let key = slot_key(now.entries, root, recs, slots, k);
            now.dir_map.contains_key(key) && leads_to_slot(now, root, recs, slots, key)
        }
    &&& forall|key: Seq<char>| #[trigger]
        now.dir_map.contains_key(key) ==> leads_to_slot(now, root, recs, slots, key) || (
        before.dir_map.contains_key(key) && now.dir_map[key] == before.dir_map[key])
    &&& forall|key: Seq<char>| #[trigger]
        before.dir_map.contains_key(key) ==> now.dir_map.contains_key(key)
}

/// Whether the entries from `base` on form a tree of their own: the first has no
/// parent, and every other one comes after its parent.
pub open spec fn is_tree(entries: Seq<EntryView>, base: int) -> bool {
    &&& 0 <= base < entries.len()
    &&& entries[base].parent == NO_PARENT
    &&& forall|i: int|
        base < i < entries.len() ==> base <= (#[trigger] entries[i]).parent < i
}

/// A new entry leaves the paths in such a tree as they are.
proof fn lemma_tree_paths(entries: Seq<EntryView>, base: int, e: EntryView, idx: int)
    requires
        is_tree(entries, base),
        base <= idx < entries.len(),
    ensures
        path_at(entries.push(e), idx) == path_at(entries, idx),
{
    lemma_path_pushed(entries, e, base, idx, MAX_HOPS as nat);
}

/// Whether `now` is `before` with a volume added: `slots` tells the entry of each
/// record that was taken in. The root comes first, and every other entry comes
/// after its directory: it is that of a record whose parent was taken in and whose
/// path is not excluded. Each directory can be found by its path.
pub open spec fn holds_volume(
    before: IndexView,
    now: IndexView,
    root: Seq<char>,
    recs: Map<u64, RecordView>,
    exclusions: Seq<Seq<char>>,
    slots: Map<u64, u32>,
) -> bool {
    let base = before.entries.len();
    &&& base < now.entries.len()
    &&& now.entries.take(base as int) == before.entries
    &&& slots.contains_key(ROOT_FRN) && slots[ROOT_FRN] == base
    &&& now.entries[base as int] == (EntryView {
        name: root,
        parent: NO_PARENT,
        size: 0,
        modified: 0,
        dir: true,
        deleted: false,
    })
    &&& is_tree(now.entries, base as int)
    &&& forall|k: u64| #[trigger]
        slots.contains_key(k) ==> base <= slots[k] < now.entries.len()
    &&& forall|k: u64, j: u64|
        slots.contains_key(k) && slots.contains_key(j) && k != j ==> #[trigger] slots[k]
            != #[trigger] slots[j]
    &&& forall|i: int| base <= i < now.entries.len() ==> #[trigger] is_slot(slots, i)
    &&& forall|k: u64| #[trigger]
        slots.contains_key(k) && k != ROOT_FRN ==> {
            &&& recs.contains_key(k)
            &&& slots.contains_key(recs[k].parent_frn)
            &&& now.entries[slots[k] as int] == entry_for(recs[k], slots)
            &&& !excluded(record_path(now.entries, slots, recs[k]), exclusions)
        }
    &&& holds_keys(before, now, root, recs, slots)
    &&& now.roots == before.roots
    &&& now.completed_roots == before.completed_roots
    &&& now.complete == before.complete
    &&& now.scanned_at == before.scanned_at
}

/// Whether an entry belongs to a record.
pub open spec fn is_slot(slots: Map<u64, u32>, i: int) -> bool {
    exists|k: u64| #[trigger] slots.contains_key(k) && slots[k] == i
}

/// Whether a record that lies within reach of the root was taken in, or it or one
/// above it is excluded.
pub open spec fn accounted_for(
    recs: Map<u64, RecordView>,
    entries: Seq<EntryView>,
    slots: Map<u64, u32>,
    exclusions: Seq<Seq<char>>,
    frn: u64,
) -> bool {
    reaches_root(recs, frn, MAX_CHAIN as nat) ==> slots.contains_key(frn) || blocked(
        recs,
        entries,
        slots,
        exclusions,
        frn,
        MAX_CHAIN as nat,
    )
}

/// What is left out stays left out as the index grows.
proof fn lemma_left_out_grows(
    recs: Map<u64, RecordView>,
    entries: Seq<EntryView>,
    slots: Map<u64, u32>,
    exclusions: Seq<Seq<char>>,
    e: EntryView,
    frn: u64,
    base: int,
    a: u64,
)
    requires
        is_tree(entries, base),
        !slots.contains_key(frn),
        forall|k: u64| #[trigger] slots.contains_key(k) ==> base <= slots[k] < entries.len(),
        left_out(recs, entries, slots, exclusions, a),
        entries.len() < NO_PARENT,
    ensures
        left_out(
            recs,
            entries.push(e),
            slots.insert(frn, entries.len() as u32),
            exclusions,
            a,
        ),
{
    let p = recs[a].parent_frn;
    assert(slots.contains_key(p));
    lemma_tree_paths(entries, base, e, slots[p] as int);
}

proof fn lemma_blocked_grows(
    recs: Map<u64, RecordView>,
    entries: Seq<EntryView>,
    slots: Map<u64, u32>,
    exclusions: Seq<Seq<char>>,
    e: EntryView,
    frn: u64,
    base: int,
    a: u64,
    n: nat,
)
    requires
        is_tree(entries, base),
        !slots.contains_key(frn),
        forall|k: u64| #[trigger] slots.contains_key(k) ==> base <= slots[k] < entries.len(),
        blocked(recs, entries, slots, exclusions, a, n),
        entries.len() < NO_PARENT,
    ensures
        blocked(
            recs,
            entries.push(e),
            slots.insert(frn, entries.len() as u32),
            exclusions,
            a,
            n,
        ),
    decreases n,
{
    if left_out(recs, entries, slots, exclusions, a) {
        lemma_left_out_grows(recs, entries, slots, exclusions, e, frn, base, a);
    } else {
        lemma_blocked_grows(
            recs,
            entries,
            slots,
            exclusions,
            e,
            frn,
            base,
            recs[a].parent_frn,
            (n - 1) as nat,
        );
    }
}

/// Adding the entry of one more record keeps the volume as it should be.
proof fn lemma_record_added(
    before: IndexView,
    now: IndexView,
    root: Seq<char>,
    recs: Map<u64, RecordView>,
    exclusions: Seq<Seq<char>>,
    slots: Map<u64, u32>,
    frn: u64,
    more: IndexView,
)
    requires
        holds_volume(before, now, root, recs, exclusions, slots),
        now.entries.len() < NO_PARENT,
        !slots.contains_key(frn),
        recs.contains_key(frn),
        slots.contains_key(recs[frn].parent_frn),
        !excluded(record_path(now.entries, slots, recs[frn]), exclusions),
        more.entries == now.entries.push(entry_for(recs[frn], slots)),
        more.dir_map == (if recs[frn].dir {
            now.dir_map.insert(
                normal(record_path(now.entries, slots, recs[frn])),
                now.entries.len() as u32,
            )
        } else {
            now.dir_map
        }),
        more.roots == now.roots,
        more.completed_roots == now.completed_roots,
        more.complete == now.complete,
        more.scanned_at == now.scanned_at,
    ensures
        holds_volume(
            before,
            more,
            root,
            recs,
            exclusions,
            slots.insert(frn, now.entries.len() as u32),
        ),
{
    let e = entry_for(recs[frn], slots);
    let len = now.entries.len();
    let base = before.entries.len();
    let wide = slots.insert(frn, len as u32);
    assert(frn != ROOT_FRN);
    assert(base <= slots[recs[frn].parent_frn] < len);
    assert(is_tree(more.entries, base as int)) by {
        assert forall|i: int| base < i < more.entries.len() implies base <= (
        #[trigger] more.entries[i]).parent < i by {
            if i < len {
                assert(more.entries[i] == now.entries[i]);
            }
        }
    }
    assert forall|k: u64| slots.contains_key(k) implies #[trigger] path_at(
        more.entries,
        slots[k] as int,
    ) == path_at(now.entries, slots[k] as int) by {
        lemma_tree_paths(now.entries, base as int, e, slots[k] as int);
    }
    assert(more.entries.take(base as int) =~= now.entries.take(base as int));
    assert(more.entries[base as int] == now.entries[base as int]);
    assert forall|i: int| base <= i < more.entries.len() implies #[trigger] is_slot(wide, i) by {
        if i < len {
            assert(is_slot(slots, i));
            let k = choose|k: u64| #[trigger] slots.contains_key(k) && slots[k] == i;
            assert(wide.contains_key(k) && wide[k] == i);
        } else {
            assert(wide.contains_key(frn) && wide[frn] == i);
        }
    }
    assert forall|k: u64| #[trigger] wide.contains_key(k) && k != ROOT_FRN implies {
        &&& recs.contains_key(k)
        &&& wide.contains_key(recs[k].parent_frn)
        &&& more.entries[wide[k] as int] == entry_for(recs[k], wide)
        &&& !excluded(record_path(more.entries, wide, recs[k]), exclusions)
    } by {
        let p = recs[k].parent_frn;
        if k != frn {
            assert(slots.contains_key(k));
        }
        assert(slots.contains_key(p));
        assert(p != frn);
        assert(path_at(more.entries, slots[p] as int) == path_at(now.entries, slots[p] as int));
        assert(record_path(more.entries, wide, recs[k]) == record_path(
            now.entries,
            slots,
            recs[k],
        ));
    }
    assert forall|k: u64, j: u64|
        wide.contains_key(k) && wide.contains_key(j) && k != j implies #[trigger] wide[k]
        != #[trigger] wide[j] by {
        if k != frn {
            assert(slots.contains_key(k));
        }
        if j != frn {
            assert(slots.contains_key(j));
        }
    }
    lemma_keys_added(before, now, root, recs, slots, frn, more);
}

/// Adding the entry of one more record keeps the keys as they should be.
proof fn lemma_keys_added(
    before: IndexView,
    now: IndexView,
    root: Seq<char>,
    recs: Map<u64, RecordView>,
    slots: Map<u64, u32>,
    frn: u64,
    more: IndexView,
)
    requires
        holds_keys(before, now, root, recs, slots),
        is_tree(now.entries, before.entries.len() as int),
        forall|k: u64| #[trigger]
            slots.contains_key(k) ==> before.entries.len() <= slots[k] < now.entries.len(),
        forall|k: u64| #[trigger]
            slots.contains_key(k) && k != ROOT_FRN ==> slots.contains_key(recs[k].parent_frn),
        frn != ROOT_FRN,
        !slots.contains_key(frn),
        slots.contains_key(recs[frn].parent_frn),
        more.entries == now.entries.push(entry_for(recs[frn], slots)),
        more.dir_map == (if recs[frn].dir {
            now.dir_map.insert(
                normal(record_path(now.entries, slots, recs[frn])),
                now.entries.len() as u32,
            )
        } else {
            now.dir_map
        }),
    ensures
        holds_keys(before, more, root, recs, slots.insert(frn, now.entries.len() as u32)),
{
    let e = entry_for(recs[frn], slots);
    let wide = slots.insert(frn, now.entries.len() as u32);
    let new_key = normal(record_path(now.entries, slots, recs[frn]));
    assert forall|k: u64| #[trigger] is_dir_slot(recs, wide, k) implies slot_key(
        more.entries,
        root,
        recs,
        wide,
        k,
    ) == slot_key(now.entries, root, recs, slots, k) && (k != frn ==> is_dir_slot(
        recs,
        slots,
        k,
    )) by {
        if k != frn {
            assert(slots.contains_key(k));
        }
        if k != ROOT_FRN {
            let p = recs[k].parent_frn;
            assert(slots.contains_key(p));
            lemma_tree_paths(now.entries, before.entries.len() as int, e, slots[p] as int);
        }
    }
    assert forall|key: Seq<char>|
        leads_to_slot(now, root, recs, slots, key) && !(recs[frn].dir && key
            == new_key) implies #[trigger] leads_to_slot(more, root, recs, wide, key) by {
        let k = choose|k: u64| #[trigger]
            is_dir_slot(recs, slots, k) && slot_key(now.entries, root, recs, slots, k) == key
                && now.dir_map[key] == slots[k];
        assert(is_dir_slot(recs, wide, k));
    }
    if recs[frn].dir {
        assert(is_dir_slot(recs, wide, frn));
        assert(leads_to_slot(more, root, recs, wide, new_key));
    }
    assert forall|k: u64| #[trigger] is_dir_slot(recs, wide, k) implies {
        let key = slot_key(more.entries, root, recs, wide, k);
        more.dir_map.contains_key(key) && leads_to_slot(more, root, recs, wide, key)
    } by {
        let key = slot_key(now.entries, root, recs, slots, k);
        if k != frn {
            assert(is_dir_slot(recs, slots, k));
            assert(leads_to_slot(now, root, recs, slots, key));
        }
    }
    assert forall|key: Seq<char>| #[trigger] more.dir_map.contains_key(key) implies leads_to_slot(
        more,
        root,
        recs,
        wide,
        key,
    ) || (before.dir_map.contains_key(key) && more.dir_map[key] == before.dir_map[key]) by {
        if !(recs[frn].dir && key == new_key) {
            assert(now.dir_map.contains_key(key));
        }
    }
    assert forall|key: Seq<char>| #[trigger] before.dir_map.contains_key(key) implies
        more.dir_map.contains_key(key) by {
        assert(now.dir_map.contains_key(key));
    }
}

/// Where the record of each reference number stands.
spec fn table_fits(
    table: Map<u64, usize>,
    records: Seq<(u64, Record)>,
    recs: Map<u64, RecordView>,
) -> bool {
    &&& forall|k: u64| #[trigger] table.contains_key(k) <==> recs.contains_key(k)
    &&& forall|k: u64| #[trigger]
        table.contains_key(k) ==> table[k] < records.len() && records[table[k] as int].1@ == recs[k]
}

fn index_records(records: &[(u64, Record)]) -> (r: HashMap<u64, usize>)
    ensures
        table_fits(r@, records@, by_number(record_views(records@))),
{
    let mut r: HashMap<u64, usize> = HashMap::new();
    let ghost all = record_views(records@);
    for i in 0..records.len()
        invariant
            all == record_views(records@),
            table_fits(r@, records@, by_number(all.take(i as int))),
    {
        assert(all.take(i + 1).drop_last() =~= all.take(i as int));
        assert(all.take(i + 1).last() == (records@[i as int].0, records@[i as int].1@));
        let ghost before = r@;
        r.insert(records[i].0, i);
        assert forall|k: u64| #[trigger] r@.contains_key(k) implies r@[k] < records@.len()
            && records@[r@[k] as int].1@ == by_number(all.take(i + 1))[k] by {
            if k != records@[i as int].0 {
                assert(before.contains_key(k));
            }
        }
        assert forall|k: u64| #[trigger] r@.contains_key(k) <==> by_number(
            all.take(i + 1),
        ).contains_key(k) by {
            if k != records@[i as int].0 {
                assert(before.contains_key(k) <==> by_number(all.take(i as int)).contains_key(k));
            }
        }
    }
    assert(all.take(all.len() as int) =~= all);
    r
}

proof fn lemma_by_number_len(list: Seq<(u64, RecordView)>)
    ensures
        by_number(list).dom().finite(),
        by_number(list).dom().len() <= list.len(),
    decreases list.len(),
{
    if list.len() > 0 {
        lemma_by_number_len(list.drop_last());
    }
}

/// A chain of records, each the parent of the one before, that are not in the
/// index yet.
spec fn is_chain(
    recs: Map<u64, RecordView>,
    slots: Map<u64, u32>,
    chain: Seq<u64>,
    above: u64,
) -> bool {
    &&& forall|i: int|
        0 <= i < chain.len() ==> recs.contains_key(#[trigger] chain[i]) && !slots.contains_key(
            chain[i],
        )
    &&& forall|i: int|
        0 <= i < chain.len() ==> recs[#[trigger] chain[i]].parent_frn == (if i + 1 < chain.len() {
            chain[i + 1]
        } else {
            above
        })
}

/// The records from `frn` up to a known ancestor, the lowest first.
fn climb(
    table: &HashMap<u64, usize>,
    records: &[(u64, Record)],
    slots: &HashMap<u64, u32>,
    frn: u64,
) -> (chain: Vec<u64>)
    requires
        table_fits(table@, records@, by_number(record_views(records@))),
        by_number(record_views(records@)).contains_key(frn),
        slots@.contains_key(ROOT_FRN),
        !slots@.contains_key(frn),
    ensures
        ({
            let recs = by_number(record_views(records@));
            &&& chain@.len() > 0
            &&& chain@[0] == frn
            &&& chain@.len() <= MAX_CHAIN + 1
            &&& is_chain(recs, slots@, chain@, recs[chain@.last()].parent_frn)
            &&& reaches_root(recs, frn, MAX_CHAIN as nat) ==> chain@.len() <= MAX_CHAIN
                && slots@.contains_key(recs[chain@.last()].parent_frn)
        }),
{
    let ghost recs = by_number(record_views(records@));
    let mut chain: Vec<u64> = Vec::new();
    let mut cur: u64 = frn;
    assert(is_chain(recs, slots@, chain@, cur));
    loop
        invariant_except_break
            recs == by_number(record_views(records@)),
            table_fits(table@, records@, recs),
            slots@.contains_key(ROOT_FRN),
            !slots@.contains_key(frn),
            recs.contains_key(frn),
            chain@.len() <= MAX_CHAIN,
            chain@.len() == 0 ==> cur == frn,
            chain@.len() > 0 ==> chain@[0] == frn && cur == recs[chain@.last()].parent_frn,
            is_chain(recs, slots@, chain@, cur),
            reaches_root(recs, frn, MAX_CHAIN as nat) ==> reaches_root(
                recs,
                cur,
                (MAX_CHAIN - chain@.len()) as nat,
            ),
        ensures
            chain@.len() > 0,
            chain@[0] == frn,
            chain@.len() <= MAX_CHAIN + 1,
            is_chain(recs, slots@, chain@, recs[chain@.last()].parent_frn),
            reaches_root(recs, frn, MAX_CHAIN as nat) ==> chain@.len() <= MAX_CHAIN
                && slots@.contains_key(recs[chain@.last()].parent_frn),
        decreases MAX_CHAIN + 1 - chain@.len(),
    {
        if slots.contains_key(&cur) {
            break;
        }
        let pos: usize = match table.get(&cur) {
            Some(p) => *p,
            None => {
                break;
            },
        };
        let ghost before = chain@;
        chain.push(cur);
        assert(recs.contains_key(cur));
        let above = records[pos].1.parent_frn;
        assert forall|i: int| 0 <= i < chain@.len() implies recs[#[trigger] chain@[i]].parent_frn
            == (if i + 1 < chain@.len() {
            chain@[i + 1]
        } else {
            above
        }) by {
            if i < before.len() {
                assert(chain@[i] == before[i]);
            }
        }
        assert forall|i: int| 0 <= i < chain@.len() implies recs.contains_key(
            #[trigger] chain@[i],
        ) && !slots@.contains_key(chain@[i]) by {
            if i < before.len() {
                assert(chain@[i] == before[i]);
            }
        }
        cur = above;
        if chain.len() > MAX_CHAIN {
            break;
        }
    }
    chain
}

/// Adds the entry of one record, if its parent has one and its path is not
/// excluded.
fn take_in(
    index: &mut Index,
    slots: &mut HashMap<u64, u32>,
    record: &Record,
    frn: u64,
    matcher: &ExclusionMatcher,
    Ghost(before): Ghost<IndexView>,
    Ghost(root): Ghost<Seq<char>>,
    Ghost(recs): Ghost<Map<u64, RecordView>>,
    Ghost(exclusions): Ghost<Seq<Seq<char>>>,
)
    requires
        old(index).wf(),
        holds_volume(before, old(index)@, root, recs, exclusions, old(slots)@),
        recs.contains_key(frn),
        recs[frn] == record@,
        !old(slots)@.contains_key(frn),
        matcher.made_from(exclusions),
        old(index)@.entries.len() < NO_PARENT,
    ensures
        final(index).wf(),
        holds_volume(before, final(index)@, root, recs, exclusions, final(slots)@),
        ({
            let parent = old(slots)@.contains_key(recs[frn].parent_frn);
            let out = excluded(
                record_path(old(index)@.entries, old(slots)@, recs[frn]),
                exclusions,
            );
            if parent && !out {
                &&& final(slots)@ == old(slots)@.insert(frn, old(index)@.entries.len() as u32)
                &&& final(index)@.entries == old(index)@.entries.push(
                    entry_for(recs[frn], old(slots)@),
                )
            } else {
                &&& final(slots)@ == old(slots)@
                &&& final(index)@ == old(index)@
            }
        }),
{
    let parent: u32 = match slots.get(&record.parent_frn) {
        Some(p) => *p,
        None => {
            return ;
        },
    };
    let ghost v = index@;
    let ghost was = slots@;
    let above = index.full_path(parent);
    let path = join_path(above.as_str(), record.name.as_str());
    if matcher.matches(path.as_str()) {
        return ;
    }
    let slot = index.push_entry_pub(record.name.as_str(), parent, 0, 0, record.is_dir);
    slots.insert(frn, slot);
    if record.is_dir {
        index.dir_map.insert(path.as_str(), slot);
        assert forall|k: Seq<char>| #[trigger] index@.dir_map.contains_key(k) implies index@.dir_map[k]
            < index@.entries.len() && index@.entries[index@.dir_map[k] as int].dir by {
            if k != normal(path@) {
                assert(v.dir_map.contains_key(k));
                assert(v.entries[v.dir_map[k] as int].dir);
            }
        }
    }
    proof {
        lemma_record_added(before, v, root, recs, exclusions, was, frn, index@);
    }
}

/// Number of entries that a volume can still add.
proof fn lemma_room(
    before: IndexView,
    now: IndexView,
    root: Seq<char>,
    recs: Map<u64, RecordView>,
    exclusions: Seq<Seq<char>>,
    slots: Map<u64, u32>,
    frn: u64,
)
    requires
        holds_volume(before, now, root, recs, exclusions, slots),
        slots.dom().finite(),
        slots.dom().len() == now.entries.len() - before.entries.len(),
        recs.dom().finite(),
        recs.contains_key(frn),
        !slots.contains_key(frn),
    ensures
        now.entries.len() < before.entries.len() + recs.dom().len() + 1,
{
    let all = recs.dom().insert(ROOT_FRN);
    let some = slots.dom().insert(frn);
    assert(some.subset_of(all)) by {
        assert forall|k: u64| some.contains(k) implies all.contains(k) by {
            if k != frn && k != ROOT_FRN {
                assert(slots.contains_key(k));
            }
        }
    }
    vstd::set_lib::lemma_len_subset(some, all);
}

proof fn lemma_blocked_chain(
    recs: Map<u64, RecordView>,
    entries: Seq<EntryView>,
    slots: Map<u64, u32>,
    exclusions: Seq<Seq<char>>,
    chain: Seq<u64>,
    i: int,
    j: int,
    n: nat,
)
    requires
        0 <= i <= j < chain.len(),
        n >= j - i,
        forall|k: int| 0 <= k < chain.len() ==> recs.contains_key(#[trigger] chain[k]),
        forall|k: int|
            0 <= k < chain.len() - 1 ==> recs[#[trigger] chain[k]].parent_frn == chain[k + 1],
        left_out(recs, entries, slots, exclusions, chain[j]),
    ensures
        blocked(recs, entries, slots, exclusions, chain[i], n),
    decreases j - i,
{
    if i < j {
        lemma_blocked_chain(recs, entries, slots, exclusions, chain, i + 1, j, (n - 1) as nat);
        assert(recs[chain[i]].parent_frn == chain[i + 1]);
    }
}

/// The root of the volume that a path lies on.
pub open spec fn volume_root(path: Seq<char>) -> Seq<char> {
    seq![path[0], ':', '/']
}

/// Builds index entries for one volume out of its records. Entries are appended;
/// sizes and times are left blank. Nothing is done where the root does not start
/// with a drive letter.
pub fn enumerate_volume(
    index: &mut Index,
    root: &str,
    exclusions: &[String],
    records: &[(u64, Record)],
) -> (r: bool)
    requires
        old(index).wf(),
        old(index)@.entries.len() + records@.len() + 1 <= NO_PARENT,
    ensures
        final(index).wf(),
        keeps_order(old(index)@.entries, final(index)@.entries),
        r == (root@.len() > 0 && crate::text::is_letter(root@[0])),
        !r ==> final(index)@ == old(index)@,
        r ==> exists|slots: Map<u64, u32>| #[trigger]
            holds_volume(
                old(index)@,
                final(index)@,
                volume_root(root@),
                by_number(record_views(records@)),
                views(exclusions@),
                slots,
            ) && forall|frn: u64| #[trigger]
                by_number(record_views(records@)).contains_key(frn) ==> accounted_for(
                    by_number(record_views(records@)),
                    final(index)@.entries,
                    slots,
                    views(exclusions@),
                    frn,
                ),
{
    let chars = crate::text::to_chars(root);
    if chars.len() == 0 {
        return false;
    }
    let letter = chars[0];
    if !(('a' <= letter && letter <= 'z') || ('A' <= letter && letter <= 'Z')) {
        return false;
    }
    let ghost before = index@;
    let ghost recs = by_number(record_views(records@));
    let ghost excl = views(exclusions@);
    let matcher = ExclusionMatcher::new(exclusions);
    let mut name = String::new();
    name.push(letter);
    name.push(':');
    name.push('/');
    let ghost top = name@;
    assert(top =~= volume_root(root@));
    let table = index_records(records);
    let root_idx = index.push_entry_pub(name.as_str(), NO_PARENT, 0, 0, true);
    index.dir_map.insert(name.as_str(), root_idx);
    let mut slots: HashMap<u64, u32> = HashMap::new();
    slots.insert(ROOT_FRN, root_idx);
    proof {
        lemma_by_number_len(record_views(records@));
        assert(index@.entries =~= before.entries.push(index@.entries.last()));
        assert(index@.entries.take(before.entries.len() as int) =~= before.entries);
        assert forall|k: Seq<char>| #[trigger] index@.dir_map.contains_key(k) implies index@.dir_map[k]
            < index@.entries.len() && index@.entries[index@.dir_map[k] as int].dir by {
            if k != normal(top) {
                assert(before.dir_map.contains_key(k));
                assert(before.entries[before.dir_map[k] as int].dir);
            }
        }
        assert forall|i: int| before.entries.len() <= i < index@.entries.len() implies #[trigger]
        is_slot(slots@, i) by {
            assert(slots@.contains_key(ROOT_FRN) && slots@[ROOT_FRN] == i);
        }
        assert(slots@.dom() =~= Set::<u64>::empty().insert(ROOT_FRN));
        assert(is_dir_slot(recs, slots@, ROOT_FRN));
        assert(leads_to_slot(index@, top, recs, slots@, normal(top)));
        assert forall|k: u64| #[trigger] is_dir_slot(recs, slots@, k) implies k == ROOT_FRN by {
            assert(slots@.contains_key(k));
        }
        assert(holds_keys(before, index@, top, recs, slots@));
        assert(holds_volume(before, index@, top, recs, excl, slots@));
    }
    for n in 0..records.len()
        invariant
            index.wf(),
            recs == by_number(record_views(records@)),
            excl == views(exclusions@),
            matcher.made_from(excl),
            table_fits(table@, records@, recs),
            holds_volume(before, index@, top, recs, excl, slots@),
            slots@.dom().finite(),
            slots@.dom().len() == index@.entries.len() - before.entries.len(),
            recs.dom().finite(),
            recs.dom().len() <= records@.len(),
            before.entries.len() + records@.len() + 1 <= NO_PARENT,
            forall|k: int|
                0 <= k < n ==> accounted_for(
                    recs,
                    index@.entries,
                    slots@,
                    excl,
                    (#[trigger] records@[k]).0,
                ),
    {
        let frn = records[n].0;
        proof {
            lemma_has_number(record_views(records@), n as int);
            assert(record_views(records@)[n as int].0 == frn);
        }
        if !slots.contains_key(&frn) {
            resolve(
                index,
                &mut slots,
                &table,
                records,
                frn,
                &matcher,
                Ghost(before),
                Ghost(top),
                Ghost(excl),
                Ghost(n as int),
            );
        }
    }
    proof {
        lemma_volume_order(before.entries, index@.entries);
        assert forall|frn: u64| #[trigger] recs.contains_key(frn) implies accounted_for(
            recs,
            index@.entries,
            slots@,
            excl,
            frn,
        ) by {
            lemma_number_of(record_views(records@), frn);
            let k = choose|k: int|
                0 <= k < record_views(records@).len() && (#[trigger] record_views(records@)[k]).0
                    == frn;
            assert(records@[k].0 == frn);
        }
    }
    true
}

/// A tree behind entries keeps them in order.
proof fn lemma_volume_order(before: Seq<EntryView>, now: Seq<EntryView>)
    requires
        before.len() <= now.len(),
        now.take(before.len() as int) == before,
        is_tree(now, before.len() as int),
    ensures
        keeps_order(before, now),
{
    assert forall|i: int| 0 <= i < before.len() implies (#[trigger] now[i]) == before[i] by {
        assert(now.take(before.len() as int)[i] == now[i]);
    }
}

proof fn lemma_has_number(list: Seq<(u64, RecordView)>, n: int)
    requires
        0 <= n < list.len(),
    ensures
        by_number(list).contains_key(list[n].0),
    decreases list.len(),
{
    if n < list.len() - 1 {
        lemma_has_number(list.drop_last(), n);
        assert(list.drop_last()[n] == list[n]);
    }
}

proof fn lemma_number_of(list: Seq<(u64, RecordView)>, frn: u64)
    requires
        by_number(list).contains_key(frn),
    ensures
        exists|k: int| 0 <= k < list.len() && (#[trigger] list[k]).0 == frn,
    decreases list.len(),
{
    if list.len() > 0 {
        if list.last().0 == frn {
            assert(list[list.len() - 1].0 == frn);
        } else {
            lemma_number_of(list.drop_last(), frn);
            let k = choose|k: int|
                0 <= k < list.drop_last().len() && (#[trigger] list.drop_last()[k]).0 == frn;
            assert(list[k].0 == frn);
        }
    }
}

/// Creates the entries of a record and of its unresolved ancestors, from the
/// highest one downwards.
fn resolve(
    index: &mut Index,
    slots: &mut HashMap<u64, u32>,
    table: &HashMap<u64, usize>,
    records: &[(u64, Record)],
    frn: u64,
    matcher: &ExclusionMatcher,
    Ghost(before): Ghost<IndexView>,
    Ghost(top): Ghost<Seq<char>>,
    Ghost(excl): Ghost<Seq<Seq<char>>>,
    Ghost(n): Ghost<int>,
)
    requires
        old(index).wf(),
        table_fits(table@, records@, by_number(record_views(records@))),
        holds_volume(
            before,
            old(index)@,
            top,
            by_number(record_views(records@)),
            excl,
            old(slots)@,
        ),
        by_number(record_views(records@)).contains_key(frn),
        !old(slots)@.contains_key(frn),
        matcher.made_from(excl),
        old(slots)@.dom().finite(),
        old(slots)@.dom().len() == old(index)@.entries.len() - before.entries.len(),
        by_number(record_views(records@)).dom().finite(),
        by_number(record_views(records@)).dom().len() <= records@.len(),
        before.entries.len() + records@.len() + 1 <= NO_PARENT,
        0 <= n < records@.len(),
        forall|k: int|
            0 <= k < n ==> accounted_for(
                by_number(record_views(records@)),
                old(index)@.entries,
                old(slots)@,
                excl,
                (#[trigger] records@[k]).0,
            ),
    ensures
        final(index).wf(),
        holds_volume(
            before,
            final(index)@,
            top,
            by_number(record_views(records@)),
            excl,
            final(slots)@,
        ),
        final(slots)@.dom().finite(),
        final(slots)@.dom().len() == final(index)@.entries.len() - before.entries.len(),
        accounted_for(
            by_number(record_views(records@)),
            final(index)@.entries,
            final(slots)@,
            excl,
            frn,
        ),
        forall|k: int|
            0 <= k < n ==> accounted_for(
                by_number(record_views(records@)),
                final(index)@.entries,
                final(slots)@,
                excl,
                (#[trigger] records@[k]).0,
            ),
{
    let ghost recs = by_number(record_views(records@));
    let mut chain = climb(table, records, slots, frn);
    let ghost all = chain@;
    let ghost start = slots@;
    let mut m: usize = chain.len();
    let ghost near = reaches_root(recs, frn, MAX_CHAIN as nat);
    while m > 0
        invariant
            m <= all.len(),
            chain@ == all.take(m as int),
            all.len() > 0,
            all[0] == frn,
            all.len() <= MAX_CHAIN + 1,
            recs == by_number(record_views(records@)),
            near == reaches_root(recs, frn, MAX_CHAIN as nat),
            near ==> all.len() <= MAX_CHAIN,
            is_chain(recs, start, all, recs[all.last()].parent_frn),
            index.wf(),
            table_fits(table@, records@, recs),
            holds_volume(before, index@, top, recs, excl, slots@),
            matcher.made_from(excl),
            slots@.dom().finite(),
            slots@.dom().len() == index@.entries.len() - before.entries.len(),
            recs.dom().finite(),
            recs.dom().len() <= records@.len(),
            before.entries.len() + records@.len() + 1 <= NO_PARENT,
            0 <= n < records@.len(),
            forall|k: int|
                0 <= k < n ==> accounted_for(
                    recs,
                    index@.entries,
                    slots@,
                    excl,
                    (#[trigger] records@[k]).0,
                ),
            near ==> (if m < all.len() {
                slots@.contains_key(all[m as int])
            } else {
                slots@.contains_key(recs[all.last()].parent_frn)
            }) || exists|j: int|
                m <= j < all.len() && #[trigger] left_out(
                    recs,
                    index@.entries,
                    slots@,
                    excl,
                    all[j],
                ),
        decreases m,
    {
        let ghost v = index@;
        let ghost was = slots@;
        let cur: u64 = match chain.pop() {
            Some(c) => c,
            None => {
                return ;
            },
        };
        m = m - 1;
        assert(cur == all[m as int]);
        assert(chain@ =~= all.take(m as int));
        assert(recs.contains_key(cur));
        if slots.contains_key(&cur) {
            // Nothing to do: the same record higher up was taken in.
            continue ;
        }
        let pos: usize = match table.get(&cur) {
            Some(p) => *p,
            None => 0,
        };
        assert(table@.contains_key(cur));
        proof {
            lemma_room(before, index@, top, recs, excl, slots@, cur);
        }
        take_in(
            index,
            slots,
            &records[pos].1,
            cur,
            matcher,
            Ghost(before),
            Ghost(top),
            Ghost(recs),
            Ghost(excl),
        );
        proof {
            let e = entry_for(recs[cur], was);
            if slots@ != was {
                assert forall|k: int| 0 <= k < n implies accounted_for(
                    recs,
                    index@.entries,
                    slots@,
                    excl,
                    (#[trigger] records@[k]).0,
                ) by {
                    let f = records@[k].0;
                    assert(accounted_for(recs, v.entries, was, excl, f));
                    if reaches_root(recs, f, MAX_CHAIN as nat) && !was.contains_key(f) {
                        lemma_blocked_grows(
                            recs,
                            v.entries,
                            was,
                            excl,
                            e,
                            cur,
                            before.entries.len() as int,
                            f,
                            MAX_CHAIN as nat,
                        );
                    }
                }
                assert(slots@.dom() =~= was.dom().insert(cur));
                assert(slots@.contains_key(all[m as int]));
            }
            if near && !slots@.contains_key(all[m as int]) {
                let p = recs[cur].parent_frn;
                assert(p == (if m + 1 < all.len() {
                    all[m + 1]
                } else {
                    recs[all.last()].parent_frn
                }));
                if was.contains_key(p) {
                    assert(left_out(recs, index@.entries, slots@, excl, all[m as int]));
                } else {
                    let j = choose|j: int|
                        m + 1 <= j < all.len() && #[trigger] left_out(
                            recs,
                            v.entries,
                            was,
                            excl,
                            all[j],
                        );
                    assert(left_out(recs, index@.entries, slots@, excl, all[j]));
                }
            }
        }
    }
    proof {
        if near && !slots@.contains_key(frn) {
            let j = choose|j: int|
                0 <= j < all.len() && #[trigger] left_out(
                    recs,
                    index@.entries,
                    slots@,
                    excl,
                    all[j],
                );
            lemma_blocked_chain(
                recs,
                index@.entries,
                slots@,
                excl,
                all,
                0,
                j,
                MAX_CHAIN as nat,
            );
        }
    }
}

// ---------------------------------------------------------------------------
// Laws
// ---------------------------------------------------------------------------

/// The number that eight bytes stand for, the least significant first.
pub open spec fn number_at(b: Seq<u8>, at: int) -> nat {
    (b[at] + 0x100 * b[at + 1] + 0x1_0000 * b[at + 2] + 0x100_0000 * b[at + 3] + 0x1_0000_0000
        * b[at + 4] + 0x100_0000_0000 * b[at + 5] + 0x1_0000_0000_0000 * b[at + 6]
        + 0x100_0000_0000_0000 * b[at + 7]) as nat
}

/// A record has its own number at its ninth byte and that of its directory behind
/// it. It is a directory if its attributes say so, and it has the name whose units
/// stand where it says that its name does.
pub proof fn law_records_tell_name_and_directory(b: Seq<u8>, at: int, name: Seq<char>)
    requires
        0 <= at && at + 60 <= b.len(),
        b[at + 56] + 256 * b[at + 57] == 2 * utf16_units(name).len(),
        at + b[at + 58] + 256 * b[at + 59] + 2 * utf16_units(name).len() <= b.len(),
        forall|i: int|
            0 <= i < utf16_units(name).len() ==> #[trigger] utf16_units(name)[i] == b[at + b[at + 58]
                + 256 * b[at + 59] + 2 * i] + 256 * b[at + b[at + 58] + 256 * b[at + 59] + 2 * i
                + 1],
    ensures
        ({
            let (frn, r) = record_at(b, at);
            &&& frn == number_at(b, at + 8)
            &&& r.parent_frn == number_at(b, at + 16)
            &&& r.dir <==> b[at + 52] / 16 % 2 == 1
            &&& r.name == name
        }),
{
    reveal_with_fuel(little_endian, 9);
    lemma_le_bound(b, at + 8, 8);
    lemma_le_bound(b, at + 16, 8);
    let low = b[at + 52] as u32;
    let high = (b[at + 53] + 256 * b[at + 54] + 65_536 * b[at + 55]) as u32;
    let all = little_endian(b, at + 52, 4) as u32;
    assert(all == low + 256 * high);
    assert((all & 0x10 != 0) == (low / 16 % 2 == 1)) by (bit_vector)
        requires
            all == low + 256 * high,
            low < 256,
            high < 0x100_0000,
    ;
    let from = at + little_endian(b, at + 58, 2);
    let got = units(b, from, little_endian(b, at + 56, 2));
    assert(got =~= utf16_units(name)) by {
        assert forall|i: int| 0 <= i < got.len() implies got[i] == utf16_units(name)[i] by {}
    }
    law_utf16_round_trip(name);
}

/// Records follow one another by the lengths that they begin with: behind a record
/// whose name lies in the buffer come those that stand behind it. A length of zero
/// ends them, and so does one that leads out of the buffer.
pub proof fn law_records_follow_one_another(b: Seq<u8>, at: int, len: int)
    requires
        0 <= at && at + 64 <= b.len(),
        len == b[at] + 0x100 * b[at + 1] + 0x1_0000 * b[at + 2] + 0x100_0000 * b[at + 3],
    ensures
        len == 0 || at + len > b.len() ==> records_from(b, at).len() == 0,
        0 < len <= b.len() - at && at + b[at + 56] + 256 * b[at + 57] + b[at + 58] + 256 * b[at
            + 59] <= b.len() ==> records_from(b, at) == seq![record_at(b, at)] + records_from(
            b,
            at + len,
        ),
        0 < len <= b.len() - at && at + b[at + 56] + 256 * b[at + 57] + b[at + 58] + 256 * b[at
            + 59] > b.len() ==> records_from(b, at) == records_from(b, at + len),
{
    reveal_with_fuel(little_endian, 5);
    assert(little_endian(b, at, 4) == len);
    assert(little_endian(b, at + 56, 2) == b[at + 56] + 256 * b[at + 57]);
    assert(little_endian(b, at + 58, 2) == b[at + 58] + 256 * b[at + 59]);
}

/// The root of a volume is its letter, a colon and a slash.
pub proof fn law_volume_roots_are_drives(path: Seq<char>)
    requires
        path.len() > 0,
    ensures
        volume_root(path).len() == 3,
        volume_root(path)[0] == path[0],
        volume_root(path)[1] == ':',
        volume_root(path)[2] == '/',
{
}

/// Every entry that a volume adds is live and lies in a directory of the volume
/// that was added before it, under the name of its record; its path is not excluded.
pub proof fn law_volumes_add_live_entries(
    before: IndexView,
    now: IndexView,
    root: Seq<char>,
    recs: Map<u64, RecordView>,
    exclusions: Seq<Seq<char>>,
    slots: Map<u64, u32>,
    frn: u64,
)
    requires
        holds_volume(before, now, root, recs, exclusions, slots),
        slots.contains_key(frn),
        frn != 5,
    ensures
        ({
            let e = now.entries[slots[frn] as int];
            &&& recs.contains_key(frn)
            &&& e.name == recs[frn].name
            &&& e.dir == recs[frn].dir
            &&& !e.deleted
            &&& e.size == 0 && e.modified == 0
            &&& slots.contains_key(recs[frn].parent_frn)
            &&& e.parent == slots[recs[frn].parent_frn]
            &&& before.entries.len() <= e.parent < slots[frn]
            &&& !excluded(
                joined_path(path_at(now.entries, e.parent as int), e.name),
                exclusions,
            )
        }),
        now.entries.take(before.entries.len() as int) == before.entries,
{
    let i = slots[frn] as int;
    assert(slots[frn] != slots[5]);
    assert(now.entries[i].parent < i);
}

/// Of the records with one number the last counts, and a number that no record has
/// stands for nothing.
pub proof fn law_last_record_of_a_number_counts(list: Seq<(u64, RecordView)>, k: int, frn: u64)
    requires
        -1 <= k < list.len(),
        k >= 0 ==> list[k].0 == frn,
        forall|n: int| k < n < list.len() ==> (#[trigger] list[n]).0 != frn,
    ensures
        k >= 0 ==> by_number(list).contains_key(frn) && by_number(list)[frn] == list[k].1,
        k == -1 ==> !by_number(list).contains_key(frn),
    decreases list.len(),
{
    if list.len() > 0 {
        let front = list.drop_last();
        let last = list.len() - 1;
        assert(list[last] == list.last());
        if k < last {
            assert forall|n: int| k < n < front.len() implies (#[trigger] front[n]).0 != frn by {
                assert(front[n] == list[n]);
            }
            if k >= 0 {
                assert(front[k] == list[k]);
            }
            law_last_record_of_a_number_counts(front, k, frn);
        }
    }
}

/// A record is within reach of the root where at most 512 directories lie between
/// them: it is then in the index, or it or one above it is excluded.
pub proof fn law_records_within_reach_are_indexed(
    recs: Map<u64, RecordView>,
    entries: Seq<EntryView>,
    slots: Map<u64, u32>,
    exclusions: Seq<Seq<char>>,
    chain: Seq<u64>,
)
    requires
        accounted_for(recs, entries, slots, exclusions, chain[0]),
        0 < chain.len() <= 513,
        chain.last() == 5,
        forall|k: int| 0 <= k < chain.len() - 1 ==> recs.contains_key(#[trigger] chain[k]),
        forall|k: int|
            0 <= k < chain.len() - 1 ==> recs[#[trigger] chain[k]].parent_frn == chain[k + 1],
        forall|k: int|
            0 <= k < chain.len() ==> !left_out(
                recs,
                entries,
                slots,
                exclusions,
                #[trigger] chain[k],
            ),
        !recs.contains_key(5),
    ensures
        slots.contains_key(chain[0]),
{
    lemma_chain_reaches(recs, chain, 512);
    lemma_chain_not_blocked(recs, entries, slots, exclusions, chain, 512);
}

proof fn lemma_chain_reaches(recs: Map<u64, RecordView>, chain: Seq<u64>, n: nat)
    requires
        0 < chain.len() <= n + 1,
        chain.last() == 5,
        forall|k: int| 0 <= k < chain.len() - 1 ==> recs.contains_key(#[trigger] chain[k]),
        forall|k: int|
            0 <= k < chain.len() - 1 ==> recs[#[trigger] chain[k]].parent_frn == chain[k + 1],
    ensures
        reaches_root(recs, chain[0], n),
    decreases n,
{
    if chain[0] != 5 {
        let rest = chain.drop_first();
        assert(recs.contains_key(chain[0]));
        assert(recs[chain[0]].parent_frn == rest[0]);
        assert forall|k: int| 0 <= k < rest.len() - 1 implies recs.contains_key(
            #[trigger] rest[k],
        ) && recs[rest[k]].parent_frn == rest[k + 1] by {
            assert(rest[k] == chain[k + 1]);
        }
        lemma_chain_reaches(recs, rest, (n - 1) as nat);
    }
}

proof fn lemma_chain_not_blocked(
    recs: Map<u64, RecordView>,
    entries: Seq<EntryView>,
    slots: Map<u64, u32>,
    exclusions: Seq<Seq<char>>,
    chain: Seq<u64>,
    n: nat,
)
    requires
        0 < chain.len(),
        chain.last() == 5,
        !recs.contains_key(5),
        forall|k: int|
            0 <= k < chain.len() - 1 ==> recs[#[trigger] chain[k]].parent_frn == chain[k + 1],
        forall|k: int|
            0 <= k < chain.len() ==> !left_out(
                recs,
                entries,
                slots,
                exclusions,
                #[trigger] chain[k],
            ),
    ensures
        !blocked(recs, entries, slots, exclusions, chain[0], n),
    decreases n,
{
    assert(!left_out(recs, entries, slots, exclusions, chain[0]));
    if n > 0 && recs.contains_key(chain[0]) {
        let rest = chain.drop_first();
        assert(chain[0] != 5);
        assert(recs[chain[0]].parent_frn == rest[0]);
        assert forall|k: int| 0 <= k < rest.len() - 1 implies recs[#[trigger] rest[k]].parent_frn
            == rest[k + 1] by {
            assert(rest[k] == chain[k + 1]);
        }
        assert forall|k: int| 0 <= k < rest.len() implies !left_out(
            recs,
            entries,
            slots,
            exclusions,
            #[trigger] rest[k],
        ) by {
            assert(rest[k] == chain[k + 1]);
        }
        lemma_chain_not_blocked(recs, entries, slots, exclusions, rest, (n - 1) as nat);
    }
}

}
