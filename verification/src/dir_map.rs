//! Directories by path: a map from paths to entry numbers whose keys can be
//! walked, so that a whole subtree can be dropped.

use crate::paths::{is_under, law_same_path_same_spelling, normal, normal_path, starts_with};
use vstd::hash_map::StringHashMap;
use vstd::prelude::*;

verus! {

/// Entry numbers of directories, keyed by path. Paths with the same components
/// are the same key.
pub struct DirMap {
    /// Canonical path -> (entry number, position of the path in `keys`).
    slots: StringHashMap<(u32, usize)>,
    /// The canonical paths in the map, in no particular order.
    keys: Vec<String>,
}

impl View for DirMap {
    type V = Map<Seq<char>, u32>;

    closed spec fn view(&self) -> Map<Seq<char>, u32> {
        self.slots@.map_values(|s: (u32, usize)| s.0)
    }
}

impl DirMap {
    /// The slots and the list of keys describe each other, and every key is
    /// canonical.
    pub closed spec fn wf(self) -> bool {
        &&& forall|k: Seq<char>| #[trigger]
            self.slots@.contains_key(k) ==> self.slots@[k].1 < self.keys@.len()
                && self.keys@[self.slots@[k].1 as int]@ == k
        &&& forall|i: int|
            0 <= i < self.keys@.len() ==> self.slots@.contains_key(#[trigger] self.keys@[i]@)
                && self.slots@[self.keys@[i]@].1 == i && normal(self.keys@[i]@) == self.keys@[i]@
    }

    pub fn new() -> (r: Self)
        ensures
            r.wf(),
            r@ == Map::<Seq<char>, u32>::empty(),
    {
        let r = DirMap { slots: StringHashMap::new(), keys: Vec::new() };
        assert(r@ =~= Map::<Seq<char>, u32>::empty());
        r
    }

    /// The entry number of a directory.
    pub fn get(&self, path: &str) -> (r: Option<u32>)
        requires
            self.wf(),
        ensures
            r == (if self@.contains_key(normal(path@)) {
                Some(self@[normal(path@)])
            } else {
                None
            }),
    {
        let key = normal_path(path);
        match self.slots.get(key.as_str()) {
            Some(s) => Some(s.0),
            None => None,
        }
    }

    pub fn contains_key(&self, path: &str) -> (r: bool)
        requires
            self.wf(),
        ensures
            r == self@.contains_key(normal(path@)),
    {
        self.get(path).is_some()
    }

    /// Number of directories.
    pub fn len(&self) -> (r: usize)
        requires
            self.wf(),
        ensures
            r == self@.dom().len(),
            self@.dom().finite(),
    {
        proof {
            self.lemma_len();
        }
        self.keys.len()
    }

    pub fn is_empty(&self) -> (r: bool)
        requires
            self.wf(),
        ensures
            r == (self@ == Map::<Seq<char>, u32>::empty()),
    {
        proof {
            if self.keys@.len() == 0 {
                assert(self@ =~= Map::<Seq<char>, u32>::empty());
            } else {
                assert(self@.contains_key(self.keys@[0]@));
            }
        }
        self.keys.len() == 0
    }

    proof fn lemma_len(self)
        requires
            self.wf(),
        ensures
            self@.dom().finite(),
            self@.dom().len() == self.keys@.len(),
    {
        let names = self.keys@.map_values(|s: String| s@);
        assert(names.no_duplicates()) by {
            assert forall|i: int, j: int|
                0 <= i < names.len() && 0 <= j < names.len() && i != j implies names[i]
                != names[j] by {
                assert(self.slots@.contains_key(self.keys@[i]@));
                assert(self.slots@.contains_key(self.keys@[j]@));
            }
        }
        names.unique_seq_to_set();
        assert(names.to_set() =~= self@.dom()) by {
            assert forall|k: Seq<char>| names.to_set().contains(k) == self@.dom().contains(k) by {
                if self@.dom().contains(k) {
                    let i = self.slots@[k].1 as int;
                    assert(names[i] == k);
                    assert(names.contains(k));
                }
                if names.to_set().contains(k) {
                    let i = choose|i: int| 0 <= i < names.len() && names[i] == k;
                    assert(self.slots@.contains_key(self.keys@[i]@));
                }
            }
        }
    }

    /// Binds a path to an entry number; a path that was bound is bound anew.
    pub fn insert(&mut self, path: &str, idx: u32)
        requires
            old(self).wf(),
        ensures
            final(self).wf(),
            final(self)@ == old(self)@.insert(normal(path@), idx),
    {
        let key = normal_path(path);
        proof {
            law_same_path_same_spelling(path@, path@);
        }
        let pos: usize = match self.slots.get(key.as_str()) {
            Some(s) => s.1,
            None => self.keys.len(),
        };
        if pos == self.keys.len() {
            self.keys.push(key.clone());
        }
        let ghost before = *self;
        self.slots.insert(key, (idx, pos));
        assert(self@ =~= old(self)@.insert(normal(path@), idx));
        assert(self.wf()) by {
            assert forall|k: Seq<char>| #[trigger] self.slots@.contains_key(k) implies self.slots@[k].1
                < self.keys@.len() && self.keys@[self.slots@[k].1 as int]@ == k by {
                if k != key@ {
                    assert(old(self).slots@.contains_key(k));
                }
            }
            assert forall|i: int| 0 <= i < self.keys@.len() implies self.slots@.contains_key(
                #[trigger] self.keys@[i]@,
            ) && self.slots@[self.keys@[i]@].1 == i && normal(self.keys@[i]@) == self.keys@[i]@ by {
                if i < old(self).keys@.len() {
                    assert(self.keys@[i] == old(self).keys@[i]);
                    assert(old(self).slots@.contains_key(old(self).keys@[i]@));
                }
            }
        }
    }

    /// Drops the key at position `pos`.
    fn remove_at(&mut self, pos: usize)
        requires
            old(self).wf(),
            pos < old(self).keys@.len(),
        ensures
            final(self).wf(),
            final(self)@ == old(self)@.remove(old(self).keys@[pos as int]@),
            final(self).keys@.len() == old(self).keys@.len() - 1,
            forall|i: int|
                0 <= i < pos ==> #[trigger] final(self).keys@[i] == old(self).keys@[i],
            pos < final(self).keys@.len() ==> final(self).keys@[pos as int] == old(
                self,
            ).keys@.last(),
            forall|i: int|
                pos < i < final(self).keys@.len() ==> #[trigger] final(self).keys@[i] == old(
                    self,
                ).keys@[i],
    {
        assert(self.slots@.contains_key(self.keys@[pos as int]@));
        assert(self.slots@.contains_key(self.keys@.last()@)) by {
            assert(self.slots@.contains_key(self.keys@[self.keys@.len() - 1]@));
        }
        let gone = self.keys.swap_remove(pos);
        self.slots.remove(gone.as_str());
        if pos < self.keys.len() {
            let moved = self.keys[pos].clone();
            let idx: u32 = match self.slots.get(moved.as_str()) {
                Some(s) => s.0,
                None => 0,
            };
            assert(moved@ == old(self).keys@.last()@);
            assert(self.slots@.contains_key(moved@));
            self.slots.insert(moved, (idx, pos));
        }
        assert(self@ =~= old(self)@.remove(gone@));
        assert forall|k: Seq<char>| #[trigger] self.slots@.contains_key(k) implies self.slots@[k].1
            < self.keys@.len() && self.keys@[self.slots@[k].1 as int]@ == k by {
            assert(old(self).slots@.contains_key(k));
            let p = old(self).slots@[k].1;
            assert(old(self).keys@[p as int]@ == k);
            if p == old(self).keys@.len() - 1 {
                assert(k == old(self).keys@.last()@);
            }
        }
        assert forall|i: int| 0 <= i < self.keys@.len() implies self.slots@.contains_key(
            #[trigger] self.keys@[i]@,
        ) && self.slots@[self.keys@[i]@].1 == i && normal(self.keys@[i]@) == self.keys@[i]@ by {
            let was: int = if i == pos {
                old(self).keys@.len() - 1
            } else {
                i
            };
            assert(self.keys@[i] == old(self).keys@[was]);
            assert(old(self).slots@.contains_key(old(self).keys@[was]@));
        }
    }

    /// Forgets a path.
    pub fn remove(&mut self, path: &str)
        requires
            old(self).wf(),
        ensures
            final(self).wf(),
            final(self)@ == old(self)@.remove(normal(path@)),
    {
        let key = normal_path(path);
        let found: Option<usize> = match self.slots.get(key.as_str()) {
            Some(s) => Some(s.1),
            None => None,
        };
        match found {
            Some(pos) => {
                self.remove_at(pos);
            },
            None => {
                assert(self@.remove(normal(path@)) =~= self@);
            },
        }
    }

    /// Forgets everything.
    pub fn clear(&mut self)
        ensures
            final(self).wf(),
            final(self)@ == Map::<Seq<char>, u32>::empty(),
    {
        self.slots.clear();
        self.keys.clear();
        assert(self@ =~= Map::<Seq<char>, u32>::empty());
    }

    /// Forgets `root` and every path below it.
    pub fn remove_tree(&mut self, root: &str)
        requires
            old(self).wf(),
        ensures
            final(self).wf(),
            final(self)@ == outside(old(self)@, root@),
    {
        let mut i: usize = self.keys.len();
        let ghost start = self@;
        while i > 0
            invariant
                self.wf(),
                i <= self.keys@.len(),
                start == old(self)@,
                self@.submap_of(start),
                forall|k: Seq<char>|
                    start.contains_key(k) && !is_under(k, root@) ==> #[trigger] self@.contains_key(k),
                forall|j: int|
                    i <= j < self.keys@.len() ==> !is_under(#[trigger] self.keys@[j]@, root@),
            decreases i,
        {
            i = i - 1;
            let ghost before = *self;
            assert(self.slots@.contains_key(self.keys@[i as int]@));
            if starts_with(self.keys[i].as_str(), root) {
                self.remove_at(i);
                assert forall|j: int| i <= j < self.keys@.len() implies !is_under(
                    #[trigger] self.keys@[j]@,
                    root@,
                ) by {
                    if j == i {
                        assert(self.keys@[j] == before.keys@[before.keys@.len() - 1]);
                    } else {
                        assert(self.keys@[j] == before.keys@[j]);
                    }
                }
            }
        }
        assert forall|k: Seq<char>| #[trigger] self@.contains_key(k) implies !is_under(k, root@) by {
            assert(self.slots@.contains_key(k));
            assert(self.keys@[self.slots@[k].1 as int]@ == k);
        }
        assert(self@ =~= outside(start, root@));
    }
}

/// The part of a map whose paths do not lie below `root`.
pub open spec fn outside(m: Map<Seq<char>, u32>, root: Seq<char>) -> Map<Seq<char>, u32> {
    m.restrict(m.dom().filter(|k: Seq<char>| !is_under(k, root)))
}

}
