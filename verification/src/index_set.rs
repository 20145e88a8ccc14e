//! Operations on hash sets of vertex indices.

use std::collections::HashSet;
use vstd::prelude::*;
use vstd::std_specs::iter::IteratorSpec;

verus! {

broadcast use vstd::std_specs::hash::group_hash_axioms;

/// The values among the first `k` entries of an iteration order.
pub open spec fn visited(order: Seq<&usize>, k: int) -> Set<usize> {
    Set::new(|x: usize| exists|j: int| 0 <= j < k && j < order.len() && *order[j] == x)
}

/// Nothing is visited before the first entry.
pub proof fn lemma_visited_none()
    ensures
        forall|order: Seq<&usize>| #[trigger] visited(order, 0) == Set::<usize>::empty(),
{
    assert forall|order: Seq<&usize>| #[trigger] visited(order, 0) == Set::<usize>::empty() by {
        assert(visited(order, 0) =~= Set::<usize>::empty());
    }
}

/// Moving past entry `k` adds its value to what was visited.
pub proof fn lemma_visited_step(order: Seq<&usize>, k: int)
    requires
        0 <= k < order.len(),
    ensures
        visited(order, k + 1) == visited(order, k).insert(*order[k]),
{
    assert forall|x: usize| visited(order, k + 1).contains(x) <==> visited(order, k).insert(
        *order[k],
    ).contains(x) by {
        if visited(order, k + 1).contains(x) {
            let j = choose|j: int| 0 <= j < k + 1 && j < order.len() && *order[j] == x;
            if j < k {
                assert(visited(order, k).contains(x));
            }
        }
        if visited(order, k).contains(x) {
            let j = choose|j: int| 0 <= j < k && j < order.len() && *order[j] == x;
            assert(0 <= j < k + 1);
        }
        if x == *order[k] {
            assert(0 <= k < k + 1 && *order[k] == x);
        }
    }
    assert(visited(order, k + 1) =~= visited(order, k).insert(*order[k]));
}

/// Once every entry is passed, the visited values are the values of the whole order.
pub proof fn lemma_visited_all()
    ensures
        forall|order: Seq<&usize>| #[trigger]
            visited(order, order.len() as int) == order.unref().to_set(),
{
    assert forall|order: Seq<&usize>| #[trigger]
        visited(order, order.len() as int) == order.unref().to_set() by {
        lemma_visited_whole(order);
    }
}

proof fn lemma_visited_whole(order: Seq<&usize>)
    ensures
        visited(order, order.len() as int) == order.unref().to_set(),
{
    let n = order.len() as int;
    assert forall|x: usize| visited(order, n).contains(x) <==> order.unref().to_set().contains(
        x,
    ) by {
        if visited(order, n).contains(x) {
            let j = choose|j: int| 0 <= j < n && j < order.len() && *order[j] == x;
            assert(order.unref()[j] == x);
        }
        if order.unref().to_set().contains(x) {
            let j = choose|j: int| 0 <= j < order.unref().len() && order.unref()[j] == x;
            assert(0 <= j < n && *order[j] == x);
        }
    }
    assert(visited(order, n) =~= order.unref().to_set());
}

/// A hash set holds finitely many members.
pub proof fn lemma_view_finite(s: &HashSet<usize>)
    ensures
        s@.finite(),
{
    vstd::seq_lib::seq_to_set_is_finite(s.iter().remaining().unref());
}

/// A new set with the members of `s`.
pub fn copy_of(s: &HashSet<usize>) -> (out: HashSet<usize>)
    ensures
        out@ == s@,
{
    let mut out: HashSet<usize> = HashSet::new();
    proof {
        lemma_visited_none();
        lemma_visited_all();
    }
    for v in it: s.iter()
        invariant
            visited(it.seq(), it.seq().len() as int) == s@,
            out@ == visited(it.seq(), it.index()),
    {
        proof {
            lemma_visited_step(it.seq(), it.index());
        }
        out.insert(*v);
    }
    out
}

/// The members that `a` and `b` share.
pub fn common(a: &HashSet<usize>, b: &HashSet<usize>) -> (out: HashSet<usize>)
    ensures
        out@ == a@.intersect(b@),
{
    let mut out: HashSet<usize> = HashSet::new();
    proof {
        lemma_visited_none();
        lemma_visited_all();
    }
    for v in it: a.iter()
        invariant
            visited(it.seq(), it.seq().len() as int) == a@,
            out@ == visited(it.seq(), it.index()).intersect(b@),
    {
        proof {
            lemma_visited_step(it.seq(), it.index());
        }
        if b.contains(v) {
            out.insert(*v);
        }
    }
    out
}

} // verus!
