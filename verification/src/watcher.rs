//! Live filesystem watching: keeps the index up to date as files are created,
//! renamed and deleted, so results stay accurate without rescanning.

use crate::index::{
    keeps_order, law_removal_only_marks, law_removed_path_takes_all_below,
    law_upserted_path_is_live, leads_down, lemma_updates_wf, removed, stands_for, upserted,
    FileMeta, Index, IndexView, NO_PARENT,
};
use crate::paths::{file_name_of, normal, parent_of};
use crate::text::views;
use crate::util::{excluded, is_excluded};
use vstd::prelude::*;

verus! {

/// Events that are collected before they are applied as one batch.
pub const MAX_PENDING: usize = 100_000;

/// What an event says of its paths.
#[derive(Clone, Copy, Debug, PartialEq, Eq, Structural)]
pub enum EventKind {
    Any,
    Access,
    Create,
    Modify,
    Remove,
    Other,
}

/// A path that an event names, and what is on disk there.
pub struct Seen {
    pub path: String,
    pub exists: bool,
    /// What could be read of it.
    pub meta: Option<FileMeta>,
}

pub struct Event {
    pub kind: EventKind,
    pub paths: Vec<Seen>,
}

/// Whether collecting stops so that a batch can be applied.
pub fn batch_full(pending: usize) -> (r: bool)
    ensures
        r == (pending > 100_000),
{
    pending > MAX_PENDING
}

/// The index after one path of an event. Renames arrive as modifications of the
/// old name, the new name or both, so what counts is what exists.
pub open spec fn seen_applied(
    v: IndexView,
    kind: EventKind,
    s: Seen,
    exclusions: Seq<Seq<char>>,
) -> IndexView {
    if excluded(s.path@, exclusions) || kind == EventKind::Access {
        v
    } else if kind == EventKind::Remove || !s.exists {
        removed(v, s.path@)
    } else {
        match s.meta {
            Some(m) => upserted(v, s.path@, m),
            None => v,
        }
    }
}

/// The index after the given paths of an event.
pub open spec fn paths_applied(
    v: IndexView,
    kind: EventKind,
    paths: Seq<Seen>,
    exclusions: Seq<Seq<char>>,
) -> IndexView
    decreases paths.len(),
{
    if paths.len() == 0 {
        v
    } else {
        seen_applied(
            paths_applied(v, kind, paths.drop_last(), exclusions),
            kind,
            paths.last(),
            exclusions,
        )
    }
}

/// The index after a batch of events.
pub open spec fn batch_applied(
    v: IndexView,
    events: Seq<Event>,
    exclusions: Seq<Seq<char>>,
) -> IndexView
    decreases events.len(),
{
    if events.len() == 0 {
        v
    } else {
        paths_applied(
            batch_applied(v, events.drop_last(), exclusions),
            events.last().kind,
            events.last().paths@,
            exclusions,
        )
    }
}

/// The number of paths in a batch.
pub open spec fn path_count(events: Seq<Event>) -> nat
    decreases events.len(),
{
    if events.len() == 0 {
        0
    } else {
        path_count(events.drop_last()) + events.last().paths@.len()
    }
}

/// Applies one event.
pub fn apply_event(index: &mut Index, event: &Event, exclusions: &[String])
    requires
        old(index).wf(),
        old(index)@.entries.len() + event.paths@.len() <= NO_PARENT,
    ensures
        final(index).wf(),
        keeps_order(old(index)@.entries, final(index)@.entries),
        final(index)@ == paths_applied(
            old(index)@,
            event.kind,
            event.paths@,
            views(exclusions@),
        ),
        final(index)@.entries.len() <= old(index)@.entries.len() + event.paths@.len(),
{
    let ghost start = index@;
    let ghost list = views(exclusions@);
    for i in 0..event.paths.len()
        invariant
            index.wf(),
            keeps_order(start.entries, index@.entries),
            list == views(exclusions@),
            start.entries.len() + event.paths@.len() <= NO_PARENT,
            index@.entries.len() <= start.entries.len() + i,
            index@ == paths_applied(start, event.kind, event.paths@.take(i as int), list),
    {
        proof {
            assert(event.paths@.take(i + 1).drop_last() =~= event.paths@.take(i as int));
            assert(event.paths@.take(i + 1).last() == event.paths@[i as int]);
        }
        let seen = &event.paths[i];
        if !is_excluded(seen.path.as_str(), exclusions) {
            match event.kind {
                EventKind::Access => {},
                EventKind::Remove => index.remove_path(seen.path.as_str()),
                EventKind::Any | EventKind::Create | EventKind::Modify | EventKind::Other => {
                    if seen.exists {
                        index.upsert_path(seen.path.as_str(), seen.meta);
                    } else {
                        index.remove_path(seen.path.as_str());
                    }
                },
            }
        }
    }
    assert(event.paths@.take(event.paths@.len() as int) =~= event.paths@);
}

/// Applies a batch of events in the order in which they came.
pub fn apply_events(index: &mut Index, events: &[Event], exclusions: &[String])
    requires
        old(index).wf(),
        old(index)@.entries.len() + path_count(events@) <= NO_PARENT,
    ensures
        final(index).wf(),
        keeps_order(old(index)@.entries, final(index)@.entries),
        final(index)@ == batch_applied(old(index)@, events@, views(exclusions@)),
{
    let ghost start = index@;
    for i in 0..events.len()
        invariant
            index.wf(),
            keeps_order(start.entries, index@.entries),
            start.entries.len() + path_count(events@) <= NO_PARENT,
            index@.entries.len() <= start.entries.len() + path_count(events@.take(i as int)),
            index@ == batch_applied(start, events@.take(i as int), views(exclusions@)),
    {
        proof {
            assert(events@.take(i + 1).drop_last() =~= events@.take(i as int));
            assert(events@.take(i + 1).last() == events@[i as int]);
            lemma_path_count(events@, i + 1);
        }
        apply_event(index, &events[i], exclusions);
    }
    assert(events@.take(events@.len() as int) =~= events@);
}

proof fn lemma_path_count(events: Seq<Event>, n: int)
    requires
        0 <= n <= events.len(),
    ensures
        path_count(events.take(n)) <= path_count(events),
    decreases events.len() - n,
{
    if n < events.len() {
        lemma_path_count(events, n + 1);
        assert(events.take(n + 1).drop_last() =~= events.take(n));
    } else {
        assert(events.take(n) =~= events);
    }
}

/// A batch of events applies as its two halves do, one after the other.
pub proof fn law_batches_compose(
    v: IndexView,
    a: Seq<Event>,
    b: Seq<Event>,
    exclusions: Seq<Seq<char>>,
)
    ensures
        batch_applied(v, a + b, exclusions) == batch_applied(
            batch_applied(v, a, exclusions),
            b,
            exclusions,
        ),
    decreases b.len(),
{
    if b.len() == 0 {
        assert(a + b =~= a);
    } else {
        assert((a + b).drop_last() =~= a + b.drop_last());
        law_batches_compose(v, a, b.drop_last(), exclusions);
    }
}

/// What happens below excluded places leaves the index as it is.
pub proof fn law_excluded_paths_are_ignored(
    v: IndexView,
    kind: EventKind,
    paths: Seq<Seen>,
    exclusions: Seq<Seq<char>>,
)
    requires
        forall|i: int| 0 <= i < paths.len() ==> excluded((#[trigger] paths[i]).path@, exclusions),
    ensures
        paths_applied(v, kind, paths, exclusions) == v,
    decreases paths.len(),
{
    if paths.len() > 0 {
        let front = paths.drop_last();
        assert forall|i: int| 0 <= i < front.len() implies excluded(
            (#[trigger] front[i]).path@,
            exclusions,
        ) by {
            assert(front[i] == paths[i]);
        }
        law_excluded_paths_are_ignored(v, kind, front, exclusions);
    }
}

proof fn lemma_paths_wf(
    v: IndexView,
    kind: EventKind,
    paths: Seq<Seen>,
    exclusions: Seq<Seq<char>>,
)
    requires
        v.wf(),
        v.entries.len() + paths.len() <= NO_PARENT,
    ensures
        paths_applied(v, kind, paths, exclusions).wf(),
        paths_applied(v, kind, paths, exclusions).entries.len() <= v.entries.len() + paths.len(),
    decreases paths.len(),
{
    if paths.len() > 0 {
        lemma_paths_wf(v, kind, paths.drop_last(), exclusions);
        let before = paths_applied(v, kind, paths.drop_last(), exclusions);
        let s = paths.last();
        let meta = FileMeta { is_dir: false, len: 0, modified: 0 };
        lemma_updates_wf(before, s.path@, meta);
        if let Some(m) = s.meta {
            lemma_updates_wf(before, s.path@, m);
        }
    }
}

/// A path of an event is gone once the event is applied up to it, if it was
/// removed, or if anything but reading happened to it and it does not exist: no
/// live entry stands for it or lies below it. Excluded paths are left alone.
pub proof fn law_gone_paths_have_no_live_entry(
    v: IndexView,
    kind: EventKind,
    paths: Seq<Seen>,
    exclusions: Seq<Seq<char>>,
    chain: Seq<int>,
)
    requires
        paths.len() > 0,
        !excluded(paths.last().path@, exclusions),
        kind == EventKind::Remove || (kind != EventKind::Access && !paths.last().exists),
        leads_down(paths_applied(v, kind, paths.drop_last(), exclusions).entries, chain),
        stands_for(
            paths_applied(v, kind, paths.drop_last(), exclusions),
            paths.last().path@,
            chain[0],
        ),
    ensures
        paths_applied(v, kind, paths, exclusions).entries[chain[0]].deleted,
        paths_applied(v, kind, paths, exclusions).entries[chain.last()].deleted,
        !paths_applied(v, kind, paths, exclusions).dir_map.contains_key(
            normal(paths.last().path@),
        ),
{
    let before = paths_applied(v, kind, paths.drop_last(), exclusions);
    law_removed_path_takes_all_below(before, paths.last().path@, chain);
}

/// After an event that removes paths, each of them is gone that is not excluded,
/// whatever paths come after it.
pub proof fn law_removed_paths_stay_gone(
    v: IndexView,
    paths: Seq<Seen>,
    exclusions: Seq<Seq<char>>,
    k: int,
    chain: Seq<int>,
)
    requires
        0 <= k < paths.len(),
        !excluded(paths[k].path@, exclusions),
        leads_down(
            paths_applied(v, EventKind::Remove, paths.take(k), exclusions).entries,
            chain,
        ),
        stands_for(
            paths_applied(v, EventKind::Remove, paths.take(k), exclusions),
            paths[k].path@,
            chain[0],
        ),
    ensures
        paths_applied(v, EventKind::Remove, paths, exclusions).entries.len() == v.entries.len(),
        paths_applied(v, EventKind::Remove, paths, exclusions).entries[chain.last()].deleted,
    decreases paths.len(),
{
    let kind = EventKind::Remove;
    let front = paths.drop_last();
    lemma_removals_keep_len(v, paths, exclusions);
    lemma_removals_keep_len(v, paths.take(k), exclusions);
    assert(chain[chain.len() - 1] == chain.last());
    if k == paths.len() - 1 {
        assert(paths.take(k) =~= front);
        law_gone_paths_have_no_live_entry(v, kind, paths, exclusions, chain);
    } else {
        assert(front.take(k) =~= paths.take(k));
        law_removed_paths_stay_gone(v, front, exclusions, k, chain);
        let before = paths_applied(v, kind, front, exclusions);
        law_removal_only_marks(before, paths.last().path@, chain.last());
    }
}

proof fn lemma_removals_keep_len(v: IndexView, paths: Seq<Seen>, exclusions: Seq<Seq<char>>)
    ensures
        paths_applied(v, EventKind::Remove, paths, exclusions).entries.len() == v.entries.len(),
    decreases paths.len(),
{
    if paths.len() > 0 {
        lemma_removals_keep_len(v, paths.drop_last(), exclusions);
    }
}

/// A path of an event has a live entry once the event is applied up to it, if
/// anything but removing or reading happened to it, it exists, something could be
/// read of it, and it or its folder is indexed. The entry has what was read: the
/// time, and a file its length.
pub proof fn law_found_paths_have_a_live_entry(
    v: IndexView,
    kind: EventKind,
    paths: Seq<Seen>,
    exclusions: Seq<Seq<char>>,
)
    requires
        v.wf(),
        v.entries.len() + paths.len() <= NO_PARENT,
        paths.len() > 0,
        !excluded(paths.last().path@, exclusions),
        kind != EventKind::Remove,
        kind != EventKind::Access,
        paths.last().exists,
        paths.last().meta is Some,
        ({
            let before = paths_applied(v, kind, paths.drop_last(), exclusions);
            let path = paths.last().path@;
            before.dir_map.contains_key(normal(path)) || (parent_of(path) is Some && file_name_of(
                path,
            ) is Some && before.dir_map.contains_key(normal(parent_of(path)->0)))
        }),
    ensures
        ({
            let before = paths_applied(v, kind, paths.drop_last(), exclusions);
            let after = paths_applied(v, kind, paths, exclusions);
            let path = paths.last().path@;
            let meta = paths.last().meta->0;
            exists|i: int|
                0 <= i < after.entries.len() && {
                    let e = #[trigger] after.entries[i];
                    &&& !e.deleted
                    &&& e.modified == meta.modified
                    &&& before.dir_map.contains_key(normal(path)) ==> i == before.dir_map[normal(
                        path,
                    )]
                    &&& !before.dir_map.contains_key(normal(path)) ==> {
                        &&& e.parent == before.dir_map[normal(parent_of(path)->0)]
                        &&& Some(e.name) == file_name_of(path)
                        &&& e.dir == meta.is_dir
                        &&& meta.is_dir ==> e.size == 0
                        &&& !meta.is_dir ==> e.size == meta.len
                    }
                    &&& meta.is_dir ==> after.dir_map.contains_key(normal(path))
                        && after.dir_map[normal(path)] == i
                }
        }),
{
    let front = paths.drop_last();
    lemma_paths_wf(v, kind, front, exclusions);
    let before = paths_applied(v, kind, front, exclusions);
    let path = paths.last().path@;
    let meta = paths.last().meta->0;
    law_upserted_path_is_live(before, path, meta);
    assert(paths_applied(v, kind, paths, exclusions) == upserted(before, path, meta));
}

/// Reading leaves the index as it is, and so does a path of which nothing could
/// be read, though it exists.
pub proof fn law_reading_changes_nothing(
    v: IndexView,
    kind: EventKind,
    paths: Seq<Seen>,
    exclusions: Seq<Seq<char>>,
)
    requires
        kind == EventKind::Access || (kind != EventKind::Remove && forall|i: int|
            0 <= i < paths.len() ==> (#[trigger] paths[i]).exists && paths[i].meta is None),
    ensures
        paths_applied(v, kind, paths, exclusions) == v,
    decreases paths.len(),
{
    if paths.len() > 0 {
        let front = paths.drop_last();
        assert forall|i: int| 0 <= i < front.len() implies #[trigger] front[i] == paths[i] by {}
        law_reading_changes_nothing(v, kind, front, exclusions);
        assert(paths[paths.len() - 1] == paths.last());
    }
}

/// An event applies its paths in turn, and a batch of one event is that event.
pub proof fn law_events_apply_their_paths_in_turn(
    v: IndexView,
    event: Event,
    a: Seq<Seen>,
    b: Seq<Seen>,
    exclusions: Seq<Seq<char>>,
)
    requires
        event.paths@ == a + b,
    ensures
        batch_applied(v, seq![event], exclusions) == paths_applied(
            paths_applied(v, event.kind, a, exclusions),
            event.kind,
            b,
            exclusions,
        ),
{
    lemma_paths_in_turn(v, event.kind, a, b, exclusions);
    assert(seq![event].drop_last() =~= Seq::<Event>::empty());
    assert(batch_applied(v, Seq::<Event>::empty(), exclusions) == v);
}

proof fn lemma_paths_in_turn(
    v: IndexView,
    kind: EventKind,
    a: Seq<Seen>,
    b: Seq<Seen>,
    exclusions: Seq<Seq<char>>,
)
    ensures
        paths_applied(v, kind, a + b, exclusions) == paths_applied(
            paths_applied(v, kind, a, exclusions),
            kind,
            b,
            exclusions,
        ),
    decreases b.len(),
{
    if b.len() == 0 {
        assert(a + b =~= a);
    } else {
        assert((a + b).drop_last() =~= a + b.drop_last());
        lemma_paths_in_turn(v, kind, a, b.drop_last(), exclusions);
    }
}

}
