//! Ordering lists of numbers.

use vstd::prelude::*;

verus! {

/// `<[u64]>::select_nth_unstable` reorders the numbers so that the one at
/// position `n` is where sorting would put it: none before it is larger and
/// none after it is smaller. It needs a position within the list.
#[verifier::external_body]
pub(crate) fn select_nth(keys: &mut Vec<u64>, n: usize)
    requires
        n < old(keys)@.len(),
    ensures
        final(keys)@.len() == old(keys)@.len(),
        final(keys)@.to_multiset() == old(keys)@.to_multiset(),
        forall|i: int| 0 <= i < n ==> #[trigger] final(keys)@[i] <= final(keys)@[n as int],
        forall|i: int|
            n < i < final(keys)@.len() ==> final(keys)@[n as int] <= #[trigger] final(keys)@[i],
{
    keys.select_nth_unstable(n);
}

/// `<[u64]>::sort_unstable` puts the numbers in ascending order.
#[verifier::external_body]
pub(crate) fn sort_keys(keys: &mut Vec<u64>)
    ensures
        final(keys)@.len() == old(keys)@.len(),
        final(keys)@.to_multiset() == old(keys)@.to_multiset(),
        forall|i: int, j: int|
            0 <= i < j < final(keys)@.len() ==> final(keys)@[i] <= final(keys)@[j],
{
    keys.sort_unstable();
}

pub proof fn lemma_same_elements(a: Seq<u64>, b: Seq<u64>, x: u64)
    requires
        a.to_multiset() == b.to_multiset(),
    ensures
        a.contains(x) == b.contains(x),
{
    vstd::seq_lib::to_multiset_contains(a, x);
    vstd::seq_lib::to_multiset_contains(b, x);
}

pub proof fn lemma_permuted_distinct(a: Seq<u64>, b: Seq<u64>)
    requires
        a.no_duplicates(),
        a.to_multiset() == b.to_multiset(),
    ensures
        b.no_duplicates(),
{
    a.lemma_multiset_has_no_duplicates();
    b.lemma_multiset_has_no_duplicates_conv();
}

/// Puts a position after all positions whose keys are not larger.
pub open spec fn put_in(sorted: Seq<usize>, keys: Seq<u32>, i: usize) -> Seq<usize>
    decreases sorted.len(),
{
    if sorted.len() == 0 || keys[sorted.last() as int] <= keys[i as int] {
        sorted.push(i)
    } else {
        put_in(sorted.drop_last(), keys, i).push(sorted.last())
    }
}

/// The first `n` positions of a list in ascending order of their keys; equal
/// keys stay in the order in which they came.
pub open spec fn stable_order(keys: Seq<u32>, n: nat) -> Seq<usize>
    decreases n,
{
    if n == 0 {
        Seq::empty()
    } else {
        put_in(stable_order(keys, (n - 1) as nat), keys, (n - 1) as usize)
    }
}

proof fn lemma_put_in(sorted: Seq<usize>, keys: Seq<u32>, i: usize, at: int)
    requires
        0 <= at <= sorted.len(),
        forall|k: int| at <= k < sorted.len() ==> keys[sorted[k] as int] > keys[i as int],
        at > 0 ==> keys[sorted[at - 1] as int] <= keys[i as int],
    ensures
        put_in(sorted, keys, i) == sorted.insert(at, i),
    decreases sorted.len() - at,
{
    if at == sorted.len() {
        assert(sorted.insert(at, i) =~= sorted.push(i));
    } else {
        lemma_put_in(sorted.drop_last(), keys, i, at);
        assert(sorted.insert(at, i) =~= sorted.drop_last().insert(at, i).push(sorted.last()));
    }
}

/// The positions of a list in ascending order of their keys.
pub fn stable_positions(keys: &[u32]) -> (r: Vec<usize>)
    ensures
        r@ == stable_order(keys@, keys@.len()),
        forall|i: int| 0 <= i < r@.len() ==> (#[trigger] r@[i]) < keys@.len(),
{
    let mut r: Vec<usize> = Vec::new();
    for n in 0..keys.len()
        invariant
            r@ == stable_order(keys@, n as nat),
            forall|i: int| 0 <= i < r@.len() ==> (#[trigger] r@[i]) < n,
    {
        let mut at: usize = r.len();
        while at > 0 && keys[r[at - 1]] > keys[n]
            invariant
                at <= r@.len(),
                n < keys@.len(),
                forall|i: int| 0 <= i < r@.len() ==> (#[trigger] r@[i]) < n,
                forall|k: int| at <= k < r@.len() ==> keys@[r@[k] as int] > keys@[n as int],
            decreases at,
        {
            at = at - 1;
        }
        proof {
            lemma_put_in(r@, keys@, n, at as int);
        }
        let ghost before = r@;
        r.insert(at, n);
        assert forall|i: int| 0 <= i < r@.len() implies (#[trigger] r@[i]) < n + 1 by {
            if i < at {
                assert(r@[i] == before[i]);
            } else if i > at {
                assert(r@[i] == before[i - 1]);
            }
        }
    }
    r
}

/// Whether position `a` comes before position `b`: by key, then by position.
pub open spec fn comes_before(keys: Seq<u32>, a: usize, b: usize) -> bool {
    keys[a as int] < keys[b as int] || (keys[a as int] == keys[b as int] && a < b)
}

proof fn lemma_put_in_sorted(sorted: Seq<usize>, keys: Seq<u32>, i: usize)
    requires
        forall|a: int, b: int|
            0 <= a < b < sorted.len() ==> comes_before(keys, sorted[a], sorted[b]),
        forall|a: int| 0 <= a < sorted.len() ==> (#[trigger] sorted[a]) < i,
    ensures
        put_in(sorted, keys, i).len() == sorted.len() + 1,
        forall|a: int, b: int|
            0 <= a < b < put_in(sorted, keys, i).len() ==> comes_before(
                keys,
                put_in(sorted, keys, i)[a],
                put_in(sorted, keys, i)[b],
            ),
        forall|a: int|
            0 <= a < put_in(sorted, keys, i).len() ==> (#[trigger] put_in(sorted, keys, i)[a]) == i
                || sorted.contains(put_in(sorted, keys, i)[a]),
    decreases sorted.len(),
{
    let now = put_in(sorted, keys, i);
    if sorted.len() == 0 || keys[sorted.last() as int] <= keys[i as int] {
        assert forall|a: int, b: int| 0 <= a < b < now.len() implies comes_before(
            keys,
            now[a],
            now[b],
        ) by {
            if b == sorted.len() {
                assert(sorted[a] < i);
                if a < sorted.len() - 1 {
                    assert(comes_before(keys, sorted[a], sorted[sorted.len() - 1]));
                }
            }
        }
        assert forall|a: int| 0 <= a < now.len() implies (#[trigger] now[a]) == i
            || sorted.contains(now[a]) by {
            if a < sorted.len() {
                assert(sorted[a] == now[a]);
            }
        }
    } else {
        let front = sorted.drop_last();
        assert forall|a: int| 0 <= a < front.len() implies (#[trigger] front[a]) < i by {
            assert(front[a] == sorted[a]);
        }
        lemma_put_in_sorted(front, keys, i);
        let before = put_in(front, keys, i);
        assert forall|a: int, b: int| 0 <= a < b < now.len() implies comes_before(
            keys,
            now[a],
            now[b],
        ) by {
            if b == before.len() {
                if before[a] != i {
                    assert(front.contains(before[a]));
                    let k = choose|k: int| 0 <= k < front.len() && front[k] == before[a];
                    assert(comes_before(keys, sorted[k], sorted[sorted.len() - 1]));
                }
            } else {
                assert(comes_before(keys, before[a], before[b]));
            }
        }
        assert forall|a: int| 0 <= a < now.len() implies (#[trigger] now[a]) == i
            || sorted.contains(now[a]) by {
            if a < before.len() {
                assert(now[a] == before[a]);
                if before[a] != i {
                    let k = choose|k: int| 0 <= k < front.len() && front[k] == before[a];
                    assert(sorted[k] == before[a]);
                }
            } else {
                assert(sorted[sorted.len() - 1] == now[a]);
            }
        }
    }
}

/// The ordered positions are all the positions, in ascending order of their keys,
/// and in their own order where keys are equal.
pub proof fn law_stable_order(keys: Seq<u32>, n: nat)
    requires
        n <= keys.len() <= usize::MAX,
    ensures
        stable_order(keys, n).len() == n,
        forall|a: int, b: int|
            0 <= a < b < n ==> comes_before(
                keys,
                stable_order(keys, n)[a],
                stable_order(keys, n)[b],
            ),
        forall|a: int| 0 <= a < n ==> (#[trigger] stable_order(keys, n)[a]) < n,
    decreases n,
{
    if n > 0 {
        let m = (n - 1) as nat;
        law_stable_order(keys, m);
        let before = stable_order(keys, m);
        lemma_put_in_sorted(before, keys, m as usize);
        let now = stable_order(keys, n);
        assert forall|a: int| 0 <= a < n implies (#[trigger] now[a]) < n by {
            if now[a] != m {
                assert(before.contains(now[a]));
                let k = choose|k: int| 0 <= k < before.len() && before[k] == now[a];
                assert(before[k] < m);
            }
        }
    }
}

/// Every place is in the order.
pub proof fn law_order_leaves_nothing_out(keys: Seq<u32>, n: nat, i: int)
    requires
        n <= keys.len() <= usize::MAX,
        0 <= i < n,
    ensures
        stable_order(keys, n).contains(i as usize),
{
    law_stable_order(keys, n);
    let order = stable_order(keys, n);
    let places = Seq::new(n, |k: int| order[k] as int);
    assert forall|a: int, b: int| 0 <= a < places.len() && 0 <= b < places.len() && a
        != b implies places[a] != places[b] by {
        if a < b {
            assert(comes_before(keys, order[a], order[b]));
        } else {
            assert(comes_before(keys, order[b], order[a]));
        }
    }
    places.unique_seq_to_set();
    let all = vstd::set_lib::set_int_range(0, n as int);
    vstd::set_lib::lemma_int_range(0, n as int);
    assert(places.to_set().subset_of(all)) by {
        assert forall|x: int| places.to_set().contains(x) implies all.contains(x) by {
            let k = choose|k: int| 0 <= k < places.len() && places[k] == x;
            assert(order[k] < n);
        }
    }
    vstd::set_lib::lemma_subset_equality(places.to_set(), all);
    assert(all.contains(i));
    assert(places.contains(i));
    let k = choose|k: int| 0 <= k < places.len() && places[k] == i;
    assert(order[k] == i as usize);
}

}
