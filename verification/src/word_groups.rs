//! Closeness between words of one length, and the groups of mutually close words.

use std::collections::HashSet;
use vstd::prelude::*;
use vstd::std_specs::iter::IteratorSpec;
use crate::clique::{
    adjacent, all_vertices, completes, is_graph, is_maximal_clique, lemma_completes_at_leaf,
    lemma_completes_branch, lemma_completes_from_all, lemma_completes_touches, touches, views_of,
};
use crate::index_set::{
    common, copy_of, lemma_view_finite, lemma_visited_all, lemma_visited_none, lemma_visited_step,
    visited,
};
use crate::text::{chars_of, group_texts, texts};

verus! {

broadcast use vstd::std_specs::hash::group_hash_axioms;

/// `a` and `b` hold different characters at position `i` and the same character everywhere else.
pub open spec fn differs_only_at(a: Seq<char>, b: Seq<char>, i: int) -> bool {
    &&& 0 <= i < a.len()
    &&& a[i] != b[i]
    &&& forall|j: int| 0 <= j < a.len() && j != i ==> a[j] == b[j]
}

/// Two words are close when they have the same length and differ in exactly one position.
pub open spec fn words_close(a: Seq<char>, b: Seq<char>) -> bool {
    a.len() == b.len() && exists|i: int| differs_only_at(a, b, i)
}

/// Closeness does not depend on the order of the two words, and no word is close to itself.
pub proof fn lemma_words_close_symmetric(a: Seq<char>, b: Seq<char>)
    ensures
        words_close(a, b) == words_close(b, a),
        !words_close(a, a),
{
    if words_close(a, b) {
        let i = choose|i: int| differs_only_at(a, b, i);
        assert(differs_only_at(b, a, i));
    }
    if words_close(b, a) {
        let i = choose|i: int| differs_only_at(b, a, i);
        assert(differs_only_at(a, b, i));
    }
}

/// The number of positions at which two words of one length hold different characters.
pub open spec fn mismatches(a: Seq<char>, b: Seq<char>) -> nat
    decreases a.len(),
{
    if a.len() == 0 || b.len() == 0 {
        0
    } else {
        mismatches(a.drop_last(), b.drop_last()) + if a.last() != b.last() {
            1nat
        } else {
            0nat
        }
    }
}

/// Two words of one length differ nowhere exactly when they hold the same characters.
pub proof fn lemma_no_mismatch_is_same(a: Seq<char>, b: Seq<char>)
    requires
        a.len() == b.len(),
    ensures
        mismatches(a, b) == 0 <==> a == b,
    decreases a.len(),
{
    if a.len() == 0 {
        assert(a =~= b);
    } else {
        lemma_no_mismatch_is_same(a.drop_last(), b.drop_last());
        if a.drop_last() == b.drop_last() && a.last() == b.last() {
            assert(a =~= b) by {
                assert forall|j: int| 0 <= j < a.len() implies a[j] == b[j] by {
                    if j < a.len() - 1 {
                        assert(a.drop_last()[j] == b.drop_last()[j]);
                    }
                }
            }
        }
    }
}

/// Two words of one length are close exactly when they differ at one position: not at
/// none, and not at two or more.
pub proof fn lemma_close_is_one_mismatch(a: Seq<char>, b: Seq<char>)
    requires
        a.len() == b.len(),
    ensures
        words_close(a, b) <==> mismatches(a, b) == 1,
    decreases a.len(),
{
    if a.len() > 0 {
        let front_a = a.drop_last();
        let front_b = b.drop_last();
        let end = a.len() - 1;
        lemma_close_is_one_mismatch(front_a, front_b);
        lemma_no_mismatch_is_same(front_a, front_b);
        if a.last() == b.last() {
            if words_close(a, b) {
                let i = choose|i: int| differs_only_at(a, b, i);
                assert(differs_only_at(front_a, front_b, i)) by {
                    assert forall|j: int| 0 <= j < front_a.len() && j != i implies front_a[j]
                        == front_b[j] by {
                        assert(a[j] == b[j]);
                    }
                }
            }
            if words_close(front_a, front_b) {
                let i = choose|i: int| differs_only_at(front_a, front_b, i);
                assert(differs_only_at(a, b, i)) by {
                    assert forall|j: int| 0 <= j < a.len() && j != i implies a[j] == b[j] by {
                        if j < end {
                            assert(front_a[j] == front_b[j]);
                        }
                    }
                }
            }
        } else {
            if words_close(a, b) {
                let i = choose|i: int| differs_only_at(a, b, i);
                assert(i == end);
                assert(front_a =~= front_b);
            }
            if front_a == front_b {
                assert(differs_only_at(a, b, end)) by {
                    assert forall|j: int| 0 <= j < a.len() && j != end implies a[j] == b[j] by {
                        assert(front_a[j] == front_b[j]);
                    }
                }
            }
        }
    }
}

/// Whether two words are close.
pub fn is_word_close(word_a: &str, word_b: &str) -> (close: bool)
    ensures
        close == words_close(word_a@, word_b@),
{
    let a = chars_of(word_a);
    let b = chars_of(word_b);
    if a.len() != b.len() {
        return false;
    }
    let mut identifier = false;
    let ghost mut at: int = 0;
    let mut i: usize = 0;
    while i < a.len()
        invariant
            a@ == word_a@,
            b@ == word_b@,
            a.len() == b.len(),
            i <= a.len(),
            !identifier ==> forall|j: int| 0 <= j < i ==> a[j] == b[j],
            identifier ==> 0 <= at < i && a[at] != b[at] && forall|j: int|
                0 <= j < i && j != at ==> a[j] == b[j],
        decreases a.len() - i,
    {
        if a[i] != b[i] {
            if identifier {
                assert forall|k: int| !differs_only_at(word_a@, word_b@, k) by {
                    if differs_only_at(word_a@, word_b@, k) {
                        assert(k == at || k == i as int);
                    }
                }
                return false;
            }
            identifier = true;
            proof {
                at = i as int;
            }
        }
        i += 1;
    }
    proof {
        if identifier {
            assert(differs_only_at(word_a@, word_b@, at));
        }
    }
    identifier
}

/// The sets held from position `from` on, as mathematical sets.
pub open spec fn views_from(sets: Seq<HashSet<usize>>, from: int) -> Seq<Set<usize>> {
    views_of(sets.skip(from))
}

/// What is held from `from` on is what is held between `from` and `mid`, followed by
/// what is held from `mid` on.
proof fn lemma_views_split(sets: Seq<HashSet<usize>>, from: int, mid: int)
    requires
        0 <= from <= mid <= sets.len(),
    ensures
        views_from(sets, from) == views_from(sets.take(mid), from) + views_from(sets, mid),
{
    assert(views_from(sets, from) =~= views_from(sets.take(mid), from) + views_from(sets, mid));
}

/// A concatenation holds what either part holds.
proof fn lemma_concat_contains(a: Seq<Set<usize>>, b: Seq<Set<usize>>, c: Set<usize>)
    ensures
        (a + b).contains(c) <==> a.contains(c) || b.contains(c),
{
    if a.contains(c) {
        let i = choose|i: int| 0 <= i < a.len() && a[i] == c;
        assert((a + b)[i] == c);
    }
    if b.contains(c) {
        let i = choose|i: int| 0 <= i < b.len() && b[i] == c;
        assert((a + b)[a.len() + i] == c);
    }
    if (a + b).contains(c) {
        let i = choose|i: int| 0 <= i < (a + b).len() && (a + b)[i] == c;
        if i < a.len() {
            assert(a[i] == c);
        } else {
            assert(b[i - a.len()] == c);
        }
    }
}

/// `found` lists, each once, what the search from `r`, `p` and `x` reports.
pub open spec fn lists_reported(
    found: Seq<Set<usize>>,
    adj: Seq<Set<usize>>,
    r: Set<usize>,
    p: Set<usize>,
    x: Set<usize>,
) -> bool {
    &&& found.no_duplicates()
    &&& forall|c: Set<usize>|
        #![trigger found.contains(c)]
        #![trigger completes(adj, r, p, x, c)]
        found.contains(c) <==> completes(adj, r, p, x, c)
}

/// `found` lists, each once, what the search from `r`, `p` and `x` reports among the sets
/// that hold a member of `done`.
spec fn lists_branches(
    found: Seq<Set<usize>>,
    adj: Seq<Set<usize>>,
    r: Set<usize>,
    p: Set<usize>,
    x: Set<usize>,
    done: Set<usize>,
) -> bool {
    &&& found.no_duplicates()
    &&& forall|c: Set<usize>|
        #![trigger found.contains(c)]
        #![trigger completes(adj, r, p, x, c)]
        found.contains(c) <==> completes(adj, r, p, x, c) && touches(c, done)
}

/// The three-set recursive clique search, without pivoting.
///
/// `r` is the clique built so far, `p` the candidates that may still extend it and `x`
/// the vertices already dealt with. Every set `c` with `completes(.., r, p, x, c)` is
/// appended to `result` exactly once, and nothing else is; the order in which they are
/// appended is that in which the candidates come out of the hash set. On return every
/// candidate has moved to `x`.
///
/// The graph has to be undirected and without loops, and the candidates have to be
/// vertices of it that are not in `r`.
pub fn bron_kerbosch(
    r: &mut HashSet<usize>,
    p: &mut HashSet<usize>,
    x: &mut HashSet<usize>,
    graph: &Vec<HashSet<usize>>,
    result: &mut Vec<HashSet<usize>>,
)
    requires
        is_graph(views_of(graph@)),
        forall|v: usize| old(p)@.contains(v) ==> v < graph.len(),
        old(r)@.disjoint(old(p)@),
    ensures
        final(r)@ == old(r)@,
        final(p)@ == Set::<usize>::empty(),
        final(x)@ == old(x)@.union(old(p)@),
        final(result)@.len() >= old(result)@.len(),
        final(result)@.take(old(result)@.len() as int) == old(result)@,
        lists_reported(
            views_from(final(result)@, old(result)@.len() as int),
            views_of(graph@),
            old(r)@,
            old(p)@,
            old(x)@,
        ),
    decreases old(p)@.len(),
{
    let ghost adj = views_of(graph@);
    let ghost r_start = r@;
    let ghost p_start = p@;
    let ghost x_start = x@;
    let ghost before = result@;
    let ghost start = result@.len() as int;
    if p.is_empty() && x.is_empty() {
        result.push(copy_of(r));
        proof {
            let found = views_from(result@, start);
            assert(found =~= seq![r_start]);
            assert(result@.take(start) =~= before);
            assert forall|c: Set<usize>|
                #![trigger found.contains(c)]
                #![trigger completes(adj, r_start, p_start, x_start, c)]
                found.contains(c) <==> completes(adj, r_start, p_start, x_start, c) by {
                lemma_completes_at_leaf(adj, r_start, c);
                assert(found[0] == r_start);
            }
            assert(x_start.union(p_start) =~= x_start);
        }
        return ;
    }
    let p_clone = copy_of(p);
    proof {
        lemma_visited_none();
        lemma_visited_all();
        lemma_view_finite(p);
        assert(result@.take(start) =~= before);
        assert(views_from(result@, start) =~= Seq::<Set<usize>>::empty());
        assert(p_start.difference(Set::<usize>::empty()) =~= p_start);
        assert(x_start.union(Set::<usize>::empty()) =~= x_start);
        assert forall|c: Set<usize>| !touches(c, Set::<usize>::empty()) by {}
        assert(lists_branches(views_from(result@, start), adj, r_start, p_start, x_start, Set::empty()));
    }
    for v in it: p_clone.iter()
        invariant
            adj == views_of(graph@),
            is_graph(adj),
            p_start == old(p)@,
            p_start.finite(),
            r_start.disjoint(p_start),
            forall|u: usize| p_start.contains(u) ==> u < graph.len(),
            !(p_start.is_empty() && x_start.is_empty()),
            visited(it.seq(), it.seq().len() as int) == p_start,
            it.seq().no_duplicates(),
            r@ == r_start,
            p@ == p_start.difference(visited(it.seq(), it.index())),
            x@ == x_start.union(visited(it.seq(), it.index())),
            start == before.len(),
            start <= result@.len(),
            result@.take(start) == before,
            lists_branches(
                views_from(result@, start),
                adj,
                r_start,
                p_start,
                x_start,
                visited(it.seq(), it.index()),
            ),
    {
        let ghost done = visited(it.seq(), it.index());
        let ghost mid = result@;
        proof {
            lemma_visited_step(it.seq(), it.index());
            assert(p_start.contains(*v)) by {
                assert(visited(it.seq(), it.seq().len() as int).contains(*v));
            }
            assert(!done.contains(*v)) by {
                if done.contains(*v) {
                    let j = choose|j: int|
                        0 <= j < it.index() && j < it.seq().len() && *it.seq()[j] == *v;
                    assert(it.seq()[j] == it.seq()[it.index()]);
                }
            }
            assert(done.subset_of(p_start)) by {
                assert forall|u: usize| done.contains(u) implies p_start.contains(u) by {
                    assert(visited(it.seq(), it.seq().len() as int).contains(u));
                }
            }
            assert(adj[*v as int] == graph@[*v as int]@);
        }
        let mut r_new = copy_of(r);
        r_new.insert(*v);
        let mut p_new = common(p, &graph[*v]);
        let mut x_new = common(x, &graph[*v]);
        let ghost r_next = r_new@;
        let ghost p_next = p_new@;
        let ghost x_next = x_new@;
        proof {
            assert(!adjacent(adj, *v, *v));
            assert(p_new@.subset_of(p_start.remove(*v)));
            vstd::set_lib::lemma_len_subset(p_new@, p_start.remove(*v));
            assert(r_next == r_start.insert(*v));
            assert(p_next == p_start.difference(done).intersect(adj[*v as int]));
            assert(x_next == x_start.union(done).intersect(adj[*v as int]));
        }
        bron_kerbosch(&mut r_new, &mut p_new, &mut x_new, graph, result);
        p.remove(v);
        x.insert(*v);
        proof {
            let next = done.insert(*v);
            let went = views_from(mid, start);
            let came = views_from(result@, mid.len() as int);
            assert(p@ =~= p_start.difference(next));
            assert(x@ =~= x_start.union(next));
            assert(result@.take(start) =~= before) by {
                assert forall|i: int| 0 <= i < start implies result@[i] == before[i] by {
                    assert(result@.take(mid.len() as int)[i] == mid[i]);
                    assert(mid.take(start)[i] == before[i]);
                }
            }
            lemma_views_split(result@, start, mid.len() as int);
            assert(views_from(result@, start) == went + came);
            assert forall|i: int, j: int| 0 <= i < went.len() && 0 <= j < came.len() implies went[i]
                != came[j] by {
                assert(went.contains(went[i]));
                assert(came.contains(came[j]));
                lemma_completes_branch(adj, r_start, p_start, x_start, done, *v, came[j]);
            }
            vstd::seq_lib::lemma_no_dup_in_concat(went, came);
            let found = views_from(result@, start);
            assert forall|c: Set<usize>|
                #![trigger found.contains(c)]
                #![trigger completes(adj, r_start, p_start, x_start, c)]
                found.contains(c) <==> completes(adj, r_start, p_start, x_start, c) && touches(c, next) by {
                lemma_concat_contains(went, came, c);
                lemma_completes_branch(adj, r_start, p_start, x_start, done, *v, c);
                if touches(c, next) {
                    let u = choose|u: usize| c.contains(u) && next.contains(u);
                    if u != *v {
                        assert(c.contains(u) && done.contains(u));
                    }
                }
                if touches(c, done) {
                    let u = choose|u: usize| c.contains(u) && done.contains(u);
                    assert(c.contains(u) && next.contains(u));
                }
                if c.contains(*v) {
                    assert(c.contains(*v) && next.contains(*v));
                }
            }
            assert(lists_branches(found, adj, r_start, p_start, x_start, next));
            assert(visited(it.seq(), it.index() + 1) == next);
        }
    }
    proof {
        assert(p@ =~= Set::<usize>::empty());
        assert(x@ =~= x_start.union(p_start));
        let found = views_from(result@, start);
        assert forall|c: Set<usize>|
            #![trigger found.contains(c)]
            #![trigger completes(adj, r_start, p_start, x_start, c)]
            found.contains(c) <==> completes(adj, r_start, p_start, x_start, c) by {
            if completes(adj, r_start, p_start, x_start, c) {
                lemma_completes_touches(adj, r_start, p_start, x_start, c);
            }
        }
    }
}

/// The graph on `n` vertices that joins the two ends of every listed edge.
pub open spec fn edge_graph(n: nat, edges: Seq<(usize, usize)>) -> Seq<Set<usize>> {
    Seq::new(
        n,
        |u: int|
            Set::new(
                |v: usize|
                    exists|k: int|
                        0 <= k < edges.len() && ((edges[k].0 == u && edges[k].1 == v) || (edges[k].1
                            == u && edges[k].0 == v)),
            ),
    )
}

/// The edges listed before position `k` join what `edge_graph` says they join.
spec fn holds_edges(graph: Seq<HashSet<usize>>, n: nat, edges: Seq<(usize, usize)>, k: int) -> bool {
    &&& graph.len() == n
    &&& views_of(graph) == edge_graph(n, edges.take(k))
}

/// Every maximal clique of the graph with vertices `0..n` and the given edges, each once.
///
/// An edge joins two different vertices below `n`; the same edge may be listed more
/// than once, in either direction.
pub fn get_maximal_cliques(n: usize, edges: &Vec<(usize, usize)>) -> (result: Vec<HashSet<usize>>)
    requires
        forall|k: int|
            0 <= k < edges.len() ==> (#[trigger] edges[k]).0 < n && edges[k].1 < n && edges[k].0
                != edges[k].1,
    ensures
        views_of(result@).no_duplicates(),
        forall|c: Set<usize>|
            #![trigger views_of(result@).contains(c)]
            #![trigger is_maximal_clique(edge_graph(n as nat, edges@), c)]
            views_of(result@).contains(c) <==> is_maximal_clique(edge_graph(n as nat, edges@), c),
{
    let mut graph: Vec<HashSet<usize>> = Vec::new();
    let mut i: usize = 0;
    while i < n
        invariant
            i <= n,
            graph.len() == i,
            forall|u: int| 0 <= u < i ==> (#[trigger] graph[u])@ == Set::<usize>::empty(),
        decreases n - i,
    {
        graph.push(HashSet::new());
        i += 1;
    }
    proof {
        assert(views_of(graph@) =~= edge_graph(n as nat, edges@.take(0))) by {
            assert forall|u: int| 0 <= u < n implies views_of(graph@)[u] =~= edge_graph(
                n as nat,
                edges@.take(0),
            )[u] by {}
        }
    }
    let mut k: usize = 0;
    while k < edges.len()
        invariant
            k <= edges.len(),
            holds_edges(graph@, n as nat, edges@, k as int),
            forall|k: int|
                0 <= k < edges.len() ==> (#[trigger] edges[k]).0 < n && edges[k].1 < n
                    && edges[k].0 != edges[k].1,
        decreases edges.len() - k,
    {
        let (a, b) = edges[k];
        let ghost before = graph@;
        graph[a].insert(b);
        graph[b].insert(a);
        proof {
            let was = edges@.take(k as int);
            let now = edges@.take(k + 1);
            assert(now =~= was.push((a, b)));
            assert forall|u: int| 0 <= u < n implies views_of(graph@)[u] =~= edge_graph(
                n as nat,
                now,
            )[u] by {
                assert(views_of(before)[u] == edge_graph(n as nat, was)[u]);
                assert forall|v: usize| edge_graph(n as nat, now)[u].contains(v) implies views_of(
                    graph@,
                )[u].contains(v) by {
                    let j = choose|j: int|
                        0 <= j < now.len() && ((now[j].0 == u && now[j].1 == v) || (now[j].1 == u
                            && now[j].0 == v));
                    if j < k {
                        assert(was[j] == now[j]);
                        assert(edge_graph(n as nat, was)[u].contains(v));
                    }
                }
                assert forall|v: usize| views_of(graph@)[u].contains(v) implies edge_graph(
                    n as nat,
                    now,
                )[u].contains(v) by {
                    if views_of(before)[u].contains(v) {
                        let j = choose|j: int|
                            0 <= j < was.len() && ((was[j].0 == u && was[j].1 == v) || (was[j].1
                                == u && was[j].0 == v));
                        assert(now[j] == was[j]);
                    } else {
                        assert(now[k as int] == (a, b));
                    }
                }
            }
            assert(views_of(graph@) =~= edge_graph(n as nat, now));
        }
        k += 1;
    }
    let ghost adj = edge_graph(n as nat, edges@);
    proof {
        assert(edges@.take(edges.len() as int) =~= edges@);
        assert forall|u: usize, v: usize| #[trigger] adjacent(adj, u, v) implies v < adj.len() && u
            != v && adjacent(adj, v, u) by {
            let j = choose|j: int|
                0 <= j < edges.len() && ((edges[j].0 == u && edges[j].1 == v) || (edges[j].1 == u
                    && edges[j].0 == v));
            assert(edges[j].0 < n && edges[j].1 < n);
        }
    }
    let mut r: HashSet<usize> = HashSet::new();
    let mut p: HashSet<usize> = HashSet::new();
    let mut v: usize = 0;
    while v < n
        invariant
            v <= n,
            p@ == all_vertices(v as nat),
        decreases n - v,
    {
        p.insert(v);
        proof {
            assert(p@ =~= all_vertices((v + 1) as nat));
        }
        v += 1;
    }
    let mut x: HashSet<usize> = HashSet::new();
    let mut result: Vec<HashSet<usize>> = Vec::new();
    bron_kerbosch(&mut r, &mut p, &mut x, &graph, &mut result);
    proof {
        assert(result@.skip(0) =~= result@);
        assert forall|c: Set<usize>|
            #![trigger views_of(result@).contains(c)]
            #![trigger is_maximal_clique(adj, c)]
            views_of(result@).contains(c) <==> is_maximal_clique(adj, c) by {
            lemma_completes_from_all(adj, c);
            assert(views_from(result@, 0).contains(c) <==> completes(
                adj,
                Set::empty(),
                all_vertices(n as nat),
                Set::empty(),
                c,
            ));
        }
    }
    result
}

/// The graph whose vertices are the positions of `words` and whose edges join the
/// positions of close words.
pub open spec fn closeness_graph(words: Seq<Seq<char>>) -> Seq<Set<usize>> {
    Seq::new(
        words.len(),
        |u: int| Set::new(|v: usize| v < words.len() && words_close(words[u], words[v as int])),
    )
}

/// `group` holds the words at the positions `order`, in that order.
pub open spec fn spells(group: Seq<Seq<char>>, words: Seq<Seq<char>>, order: Seq<usize>) -> bool {
    &&& group.len() == order.len()
    &&& forall|i: int|
        #![trigger order[i]]
        0 <= i < order.len() ==> order[i] < words.len() && group[i] == words[order[i] as int]
}

/// `group` holds the words at the positions in `clique`, each position once, in some order.
pub open spec fn lists_clique(group: Seq<Seq<char>>, words: Seq<Seq<char>>, clique: Set<usize>) -> bool {
    exists|order: Seq<usize>|
        order.no_duplicates() && order.to_set() == clique && spells(group, words, order)
}

/// `cliques` are the maximal cliques of the closeness graph of `words`, each once, and
/// each group lists the clique at its position.
pub open spec fn groups_list_cliques(
    groups: Seq<Seq<Seq<char>>>,
    words: Seq<Seq<char>>,
    cliques: Seq<Set<usize>>,
) -> bool {
    &&& cliques.len() == groups.len()
    &&& cliques.no_duplicates()
    &&& forall|c: Set<usize>|
        #![trigger cliques.contains(c)]
        #![trigger is_maximal_clique(closeness_graph(words), c)]
        cliques.contains(c) <==> is_maximal_clique(closeness_graph(words), c)
    &&& forall|k: int| 0 <= k < groups.len() ==> lists_clique(#[trigger] groups[k], words, cliques[k])
}

/// The closeness graph is an undirected graph without loops.
pub proof fn lemma_closeness_graph_is_graph(words: Seq<Seq<char>>)
    ensures
        is_graph(closeness_graph(words)),
{
    let adj = closeness_graph(words);
    assert forall|u: usize, v: usize| #[trigger] adjacent(adj, u, v) implies v < adj.len() && u
        != v && adjacent(adj, v, u) by {
        lemma_words_close_symmetric(words[u as int], words[v as int]);
    }
}

/// Every two words at different places of a group are close, and so have one length.
pub proof fn lemma_group_words_are_close(
    groups: Seq<Seq<Seq<char>>>,
    words: Seq<Seq<char>>,
    cliques: Seq<Set<usize>>,
    k: int,
    i: int,
    j: int,
)
    requires
        groups_list_cliques(groups, words, cliques),
        0 <= k < groups.len(),
        0 <= i < groups[k].len(),
        0 <= j < groups[k].len(),
        i != j,
    ensures
        words_close(groups[k][i], groups[k][j]),
{
    let adj = closeness_graph(words);
    let clique = cliques[k];
    assert(cliques.contains(clique));
    assert(lists_clique(groups[k], words, clique));
    let order = choose|order: Seq<usize>|
        order.no_duplicates() && order.to_set() == clique && spells(groups[k], words, order);
    assert(order.to_set().contains(order[i]) && order.to_set().contains(order[j]));
    assert(adjacent(adj, order[i], order[j]));
}

/// The groups of mutually close words among `words`: one group for every maximal clique
/// of the closeness graph, holding the words of that clique. Neither the order of the
/// groups nor the order of the words inside a group is fixed.
pub fn get_close_word_groups(words: &Vec<&'static str>) -> (result: Vec<Vec<&'static str>>)
    ensures
        exists|cliques: Seq<Set<usize>>|
            groups_list_cliques(group_texts(result@), texts(words@), cliques),
{
    let ghost w = texts(words@);
    let n = words.len();
    let mut edges: Vec<(usize, usize)> = Vec::new();
    let mut i: usize = 0;
    while i < n
        invariant
            n == words.len(),
            w == texts(words@),
            i <= n,
            forall|k: int|
                0 <= k < edges.len() ==> (#[trigger] edges[k]).0 < edges[k].1 < n && words_close(
                    w[edges[k].0 as int],
                    w[edges[k].1 as int],
                ),
            forall|a: usize, b: usize|
                a < i && a < b < n && words_close(w[a as int], w[b as int]) ==> edges@.contains(
                    (a, b),
                ),
        decreases n - i,
    {
        let mut j: usize = i + 1;
        while j < n
            invariant
                n == words.len(),
                w == texts(words@),
                i < n,
                i < j <= n,
                forall|k: int|
                    0 <= k < edges.len() ==> (#[trigger] edges[k]).0 < edges[k].1 < n
                        && words_close(w[edges[k].0 as int], w[edges[k].1 as int]),
                forall|a: usize, b: usize|
                    (a < i || (a == i && b < j)) && a < b < n && words_close(
                        w[a as int],
                        w[b as int],
                    ) ==> edges@.contains((a, b)),
            decreases n - j,
        {
            let ghost had = edges@;
            if is_word_close(words[i], words[j]) {
                edges.push((i, j));
            }
            proof {
                assert forall|a: usize, b: usize|
                    (a < i || (a == i && b < j + 1)) && a < b < n && words_close(
                        w[a as int],
                        w[b as int],
                    ) implies edges@.contains((a, b)) by {
                    if a == i && b == j {
                        assert(edges@[had.len() as int] == (i, j));
                    } else {
                        assert(had.contains((a, b)));
                        let k = choose|k: int| 0 <= k < had.len() && had[k] == (a, b);
                        assert(edges@[k] == (a, b));
                    }
                }
            }
            j += 1;
        }
        i += 1;
    }
    let maximal_cliques = get_maximal_cliques(n, &edges);
    let ghost cliques = views_of(maximal_cliques@);
    proof {
        assert(edge_graph(n as nat, edges@) =~= closeness_graph(w)) by {
            assert forall|u: int| 0 <= u < n implies edge_graph(n as nat, edges@)[u]
                =~= closeness_graph(w)[u] by {
                assert forall|v: usize| edge_graph(n as nat, edges@)[u].contains(v) implies v < n
                    && words_close(w[u], w[v as int]) by {
                    let k = choose|k: int|
                        0 <= k < edges.len() && ((edges[k].0 == u && edges[k].1 == v) || (
                        edges[k].1 == u && edges[k].0 == v));
                    lemma_words_close_symmetric(w[edges[k].0 as int], w[edges[k].1 as int]);
                }
                assert forall|v: usize| v < n && words_close(w[u], w[v as int]) implies edge_graph(
                    n as nat,
                    edges@,
                )[u].contains(v) by {
                    lemma_words_close_symmetric(w[u], w[v as int]);
                    if u < v {
                        assert(edges@.contains((u as usize, v)));
                        let k = choose|k: int| 0 <= k < edges.len() && edges[k] == (u as usize, v);
                        assert(edges[k].0 == u && edges[k].1 == v);
                    } else {
                        assert(edges@.contains((v, u as usize)));
                        let k = choose|k: int| 0 <= k < edges.len() && edges[k] == (v, u as usize);
                        assert(edges[k].1 == u && edges[k].0 == v);
                    }
                }
            }
        }
    }
    let mut result: Vec<Vec<&'static str>> = Vec::new();
    let mut k: usize = 0;
    while k < maximal_cliques.len()
        invariant
            n == words.len(),
            w == texts(words@),
            cliques == views_of(maximal_cliques@),
            forall|c: Set<usize>|
                cliques.contains(c) ==> is_maximal_clique(closeness_graph(w), c),
            k <= maximal_cliques.len(),
            result.len() == k,
            forall|g: int|
                0 <= g < k ==> lists_clique(#[trigger] group_texts(result@)[g], w, cliques[g]),
        decreases maximal_cliques.len() - k,
    {
        let clique = &maximal_cliques[k];
        let mut group: Vec<&'static str> = Vec::new();
        let ghost mut order: Seq<usize> = Seq::empty();
        proof {
            lemma_visited_all();
            assert(cliques.contains(cliques[k as int]));
        }
        for i in it: clique.iter()
            invariant
                n == words.len(),
                w == texts(words@),
                visited(it.seq(), it.seq().len() as int) == clique@,
                forall|v: usize| clique@.contains(v) ==> v < n,
                order == it.seq().unref().take(it.index()),
                spells(texts(group@), w, order),
        {
            proof {
                assert(clique@.contains(*i)) by {
                    assert(visited(it.seq(), it.seq().len() as int).contains(*i));
                }
            }
            let ghost had = group@;
            group.push(words[*i]);
            proof {
                let grown = order.push(*i);
                assert(grown =~= it.seq().unref().take(it.index() + 1));
                assert forall|j: int| #![trigger grown[j]] 0 <= j < grown.len() implies grown[j]
                    < w.len() && texts(group@)[j] == w[grown[j] as int] by {
                    if j < order.len() {
                        assert(texts(had)[j] == w[order[j] as int]);
                        assert(group@[j] == had[j]);
                    } else {
                        assert(group@[j] == words@[*i as int]);
                        assert(w[*i as int] == words@[*i as int]@);
                    }
                }
                assert(texts(group@).len() == grown.len());
                order = grown;
            }
        }
        let ghost had = result@;
        result.push(group);
        proof {
            assert(order =~= clique.iter().remaining().unref());
            assert(order.to_set() == clique@);
            assert(order.no_duplicates()) by {
                let refs = clique.iter().remaining();
                assert forall|a: int, b: int|
                    0 <= a < order.len() && 0 <= b < order.len() && a != b implies order[a]
                    != order[b] by {
                    assert(refs[a] != refs[b]);
                }
            }
            assert(group_texts(result@)[k as int] == texts(group@));
            assert forall|g: int| 0 <= g < k + 1 implies lists_clique(
                #[trigger] group_texts(result@)[g],
                w,
                cliques[g],
            ) by {
                if g < k {
                    assert(group_texts(result@)[g] == group_texts(had)[g]);
                }
            }
        }
        k += 1;
    }
    proof {
        assert(groups_list_cliques(group_texts(result@), w, cliques));
    }
    result
}

} // verus!
