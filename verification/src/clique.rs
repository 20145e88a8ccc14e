//! Undirected graphs over vertex indices and their maximal cliques,
//! as mathematical definitions with the facts the clique search rests on.

use std::collections::HashSet;
use vstd::prelude::*;

verus! {

/// The mathematical sets held by a sequence of hash sets, entry by entry.
pub open spec fn views_of(sets: Seq<HashSet<usize>>) -> Seq<Set<usize>> {
    sets.map_values(|s: HashSet<usize>| s@)
}

/// `v` is listed among the neighbours of `u`.
pub open spec fn adjacent(adj: Seq<Set<usize>>, u: usize, v: usize) -> bool {
    u < adj.len() && adj[u as int].contains(v)
}

/// The neighbour sets describe an undirected graph without loops:
/// every neighbour is a vertex, no vertex neighbours itself, and adjacency goes both ways.
pub open spec fn is_graph(adj: Seq<Set<usize>>) -> bool {
    forall|u: usize, v: usize| #[trigger]
        adjacent(adj, u, v) ==> v < adj.len() && u != v && adjacent(adj, v, u)
}

/// Every two distinct members of `s` are adjacent.
pub open spec fn pairwise_adjacent(adj: Seq<Set<usize>>, s: Set<usize>) -> bool {
    forall|u: usize, v: usize|
        s.contains(u) && s.contains(v) && u != v ==> #[trigger] adjacent(adj, u, v)
}

/// `w` is adjacent to every member of `s`.
pub open spec fn adjacent_to_all(adj: Seq<Set<usize>>, s: Set<usize>, w: usize) -> bool {
    forall|u: usize| s.contains(u) ==> #[trigger] adjacent(adj, u, w)
}

/// `s` is pairwise adjacent, and no member of `scope` outside `s` is adjacent to all of `s`.
pub open spec fn is_maximal_within(adj: Seq<Set<usize>>, s: Set<usize>, scope: Set<usize>) -> bool {
    &&& pairwise_adjacent(adj, s)
    &&& forall|w: usize| #[trigger]
        scope.contains(w) && !s.contains(w) ==> !adjacent_to_all(adj, s, w)
}

/// A clique: a set of vertices of the graph, every two of them adjacent.
pub open spec fn is_clique(adj: Seq<Set<usize>>, c: Set<usize>) -> bool {
    &&& forall|v: usize| c.contains(v) ==> v < adj.len()
    &&& pairwise_adjacent(adj, c)
}

/// A maximal clique: a clique to which no further vertex of the graph can be added.
pub open spec fn is_maximal_clique(adj: Seq<Set<usize>>, c: Set<usize>) -> bool {
    &&& is_clique(adj, c)
    &&& forall|w: usize| w < adj.len() && !c.contains(w) ==> !is_clique(adj, #[trigger] c.insert(w))
}

/// The vertices of a graph with `n` vertices.
pub open spec fn all_vertices(n: nat) -> Set<usize> {
    Set::new(|v: usize| v < n)
}

/// What the search started from the clique `r`, the candidates `p` and the excluded
/// vertices `x` reports: `c` extends `r` by candidates that are pairwise adjacent, and no
/// further candidate or excluded vertex is adjacent to all of them.
pub open spec fn completes(
    adj: Seq<Set<usize>>,
    r: Set<usize>,
    p: Set<usize>,
    x: Set<usize>,
    c: Set<usize>,
) -> bool {
    &&& r.subset_of(c)
    &&& c.difference(r).subset_of(p)
    &&& is_maximal_within(adj, c.difference(r), p.union(x))
}

/// `c` holds a member of `s`.
pub open spec fn touches(c: Set<usize>, s: Set<usize>) -> bool {
    exists|u: usize| c.contains(u) && s.contains(u)
}

/// In a graph, a clique plus one vertex is a clique exactly when that vertex is adjacent
/// to every member.
pub proof fn lemma_insert_is_clique(adj: Seq<Set<usize>>, c: Set<usize>, w: usize)
    requires
        is_graph(adj),
        is_clique(adj, c),
        w < adj.len(),
        !c.contains(w),
    ensures
        is_clique(adj, c.insert(w)) <==> adjacent_to_all(adj, c, w),
{
    if is_clique(adj, c.insert(w)) {
        assert forall|u: usize| c.contains(u) implies adjacent(adj, u, w) by {
            assert(c.insert(w).contains(u) && c.insert(w).contains(w));
        }
    }
    if adjacent_to_all(adj, c, w) {
        assert forall|u: usize, v: usize|
            c.insert(w).contains(u) && c.insert(w).contains(v) && u != v implies adjacent(
            adj,
            u,
            v,
        ) by {
            if u == w {
                assert(adjacent(adj, v, w));
            } else if v == w {
                assert(adjacent(adj, u, w));
            }
        }
    }
}

/// Started from nothing, with every vertex a candidate, the search reports the maximal
/// cliques of the graph.
pub proof fn lemma_completes_from_all(adj: Seq<Set<usize>>, c: Set<usize>)
    requires
        is_graph(adj),
    ensures
        completes(adj, Set::empty(), all_vertices(adj.len()), Set::empty(), c)
            <==> is_maximal_clique(adj, c),
{
    let all = all_vertices(adj.len());
    let none = Set::<usize>::empty();
    assert(c.difference(none) =~= c);
    assert(all.union(none) =~= all);
    if completes(adj, none, all, none, c) {
        assert(is_clique(adj, c));
        assert forall|w: usize| w < adj.len() && !c.contains(w) implies !is_clique(
            adj,
            #[trigger] c.insert(w),
        ) by {
            assert(all.contains(w));
            lemma_insert_is_clique(adj, c, w);
        }
    }
    if is_maximal_clique(adj, c) {
        assert forall|w: usize| #[trigger] all.contains(w) && !c.contains(w) implies !adjacent_to_all(
            adj,
            c,
            w,
        ) by {
            assert(!is_clique(adj, c.insert(w)));
            lemma_insert_is_clique(adj, c, w);
        }
        assert(c.subset_of(all));
    }
}

/// With no candidate and no excluded vertex left, the search reports `r` itself and
/// nothing else.
pub proof fn lemma_completes_at_leaf(adj: Seq<Set<usize>>, r: Set<usize>, c: Set<usize>)
    ensures
        completes(adj, r, Set::empty(), Set::empty(), c) <==> c == r,
{
    let none = Set::<usize>::empty();
    if completes(adj, r, none, none, c) {
        assert(c =~= r) by {
            assert forall|v: usize| c.contains(v) implies r.contains(v) by {
                if !r.contains(v) {
                    assert(c.difference(r).contains(v));
                }
            }
        }
    }
    if c == r {
        assert(c.difference(r) =~= none);
    }
}

/// While a candidate or an excluded vertex is left, everything the search reports holds
/// a candidate.
pub proof fn lemma_completes_touches(
    adj: Seq<Set<usize>>,
    r: Set<usize>,
    p: Set<usize>,
    x: Set<usize>,
    c: Set<usize>,
)
    requires
        completes(adj, r, p, x, c),
        !(p.is_empty() && x.is_empty()),
    ensures
        touches(c, p),
{
    let s = c.difference(r);
    if s.is_empty() {
        let w = if !p.is_empty() {
            p.choose()
        } else {
            x.choose()
        };
        assert(p.union(x).contains(w) && !s.contains(w));
        assert(adjacent_to_all(adj, s, w));
    } else {
        let u = s.choose();
        assert(c.contains(u) && p.contains(u));
    }
}

/// One branch of the search. With the candidates in `done` already moved to the excluded
/// side, branching on the candidate `v` reports what the whole search reports among the
/// sets that hold `v` and nothing of `done`.
pub proof fn lemma_completes_branch(
    adj: Seq<Set<usize>>,
    r: Set<usize>,
    p: Set<usize>,
    x: Set<usize>,
    done: Set<usize>,
    v: usize,
    c: Set<usize>,
)
    requires
        is_graph(adj),
        r.disjoint(p),
        done.subset_of(p),
        p.contains(v),
        !done.contains(v),
        v < adj.len(),
    ensures
        completes(
            adj,
            r.insert(v),
            p.difference(done).intersect(adj[v as int]),
            x.union(done).intersect(adj[v as int]),
            c,
        ) <==> completes(adj, r, p, x, c) && c.contains(v) && !touches(c, done),
{
    let nv = adj[v as int];
    let r_next = r.insert(v);
    let p_next = p.difference(done).intersect(nv);
    let x_next = x.union(done).intersect(nv);
    let s = c.difference(r);
    let s_next = c.difference(r_next);
    if completes(adj, r_next, p_next, x_next, c) {
        assert(r_next.contains(v));
        assert(r.subset_of(c));
        assert forall|u: usize| s.contains(u) implies p.contains(u) by {
            if u != v {
                assert(s_next.contains(u));
            }
        }
        assert forall|a: usize, b: usize| s.contains(a) && s.contains(b) && a != b implies adjacent(
            adj,
            a,
            b,
        ) by {
            if a == v {
                assert(s_next.contains(b) && p_next.contains(b));
                assert(adjacent(adj, v, b));
            } else if b == v {
                assert(s_next.contains(a) && p_next.contains(a));
                assert(adjacent(adj, v, a));
            } else {
                assert(s_next.contains(a) && s_next.contains(b));
            }
        }
        assert forall|w: usize| #[trigger]
            p.union(x).contains(w) && !s.contains(w) implies !adjacent_to_all(adj, s, w) by {
            if adjacent_to_all(adj, s, w) {
                assert(s.contains(v));
                assert(adjacent(adj, v, w));
                assert(adjacent(adj, w, v));
                assert(p_next.union(x_next).contains(w));
                assert(!s_next.contains(w));
                assert forall|u: usize| s_next.contains(u) implies adjacent(adj, u, w) by {
                    assert(s.contains(u));
                }
                assert(adjacent_to_all(adj, s_next, w));
            }
        }
        if touches(c, done) {
            let u = choose|u: usize| c.contains(u) && done.contains(u);
            assert(p.contains(u) && !r.contains(u) && u != v);
            assert(s_next.contains(u) && p_next.contains(u));
        }
    }
    if completes(adj, r, p, x, c) && c.contains(v) && !touches(c, done) {
        assert(s.contains(v));
        assert forall|u: usize| s_next.contains(u) implies p_next.contains(u) by {
            assert(s.contains(u) && p.contains(u));
            assert(!done.contains(u));
            assert(adjacent(adj, v, u));
        }
        assert forall|a: usize, b: usize|
            s_next.contains(a) && s_next.contains(b) && a != b implies adjacent(adj, a, b) by {
            assert(s.contains(a) && s.contains(b));
        }
        assert forall|w: usize| #[trigger]
            p_next.union(x_next).contains(w) && !s_next.contains(w) implies !adjacent_to_all(adj, s_next, w) by {
            if adjacent_to_all(adj, s_next, w) {
                assert(nv.contains(w));
                assert(adjacent(adj, v, w));
                assert(adjacent(adj, w, v));
                assert(w != v);
                assert(p.union(x).contains(w) && !s.contains(w));
                assert forall|u: usize| s.contains(u) implies adjacent(adj, u, w) by {
                    if u != v {
                        assert(s_next.contains(u));
                    }
                }
                assert(adjacent_to_all(adj, s, w));
            }
        }
        assert(r_next.subset_of(c));
    }
}

/// Of two maximal cliques of a graph, neither is a proper part of the other.
pub proof fn lemma_maximal_cliques_incomparable(
    adj: Seq<Set<usize>>,
    c: Set<usize>,
    d: Set<usize>,
)
    requires
        is_graph(adj),
        is_maximal_clique(adj, c),
        is_maximal_clique(adj, d),
        c.subset_of(d),
    ensures
        c == d,
{
    if c != d {
        assert(!(c =~= d));
        let w = choose|w: usize| d.contains(w) && !c.contains(w);
        assert(!is_clique(adj, c.insert(w)));
        assert forall|u: usize, v: usize|
            c.insert(w).contains(u) && c.insert(w).contains(v) && u != v implies adjacent(
            adj,
            u,
            v,
        ) by {
            assert(d.contains(u) && d.contains(v));
        }
    }
}

} // verus!
