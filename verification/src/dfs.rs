//! Depth-first marking of the vertices that can be reached.

use crate::graph::{connects, is_edge, is_graph, is_path};
use vstd::prelude::*;

verus! {

/// Whether `path` is a walk whose vertices after the first are all
/// unmarked in `seen`.
pub open spec fn is_fresh_path(graph: Seq<Vec<usize>>, seen: Seq<bool>, path: Seq<int>) -> bool {
    &&& is_path(graph, path)
    &&& forall|i: int| 1 <= i < path.len() ==> !seen[#[trigger] path[i]]
}

/// Whether `w` can be reached from `v` over vertices unmarked in `seen`:
/// `w` is `v`, or a walk from `v` to `w` enters unmarked vertices only.
pub open spec fn reaches_fresh(graph: Seq<Vec<usize>>, seen: Seq<bool>, v: int, w: int) -> bool {
    exists|path: Seq<int>| #[trigger] is_fresh_path(graph, seen, path) && connects(path, v, w)
}

/// The number of unmarked vertices.
pub open spec fn count_unseen(seen: Seq<bool>) -> nat
    decreases seen.len(),
{
    if seen.len() == 0 {
        0
    } else {
        count_unseen(seen.drop_last()) + if seen.last() {
            0nat
        } else {
            1nat
        }
    }
}

/// Where marks are only added, the number of unmarked vertices does not
/// grow, and it shrinks if a mark was added.
proof fn lemma_count_unseen_shrinks(before: Seq<bool>, after: Seq<bool>)
    requires
        before.len() == after.len(),
        forall|i: int| 0 <= i < before.len() && before[i] ==> after[i],
    ensures
        count_unseen(after) <= count_unseen(before),
        (exists|i: int| 0 <= i < before.len() && !before[i] && after[i]) ==> count_unseen(after)
            < count_unseen(before),
    decreases before.len(),
{
    if before.len() > 0 {
        let (b, a) = (before.drop_last(), after.drop_last());
        lemma_count_unseen_shrinks(b, a);
        if exists|i: int| 0 <= i < before.len() && !before[i] && after[i] {
            let i = choose|i: int| 0 <= i < before.len() && !before[i] && after[i];
            if i < before.len() - 1 {
                assert(!b[i] && a[i]);
            }
        }
    }
}

/// A fresh path from `v`, continued over an edge to an unmarked vertex, is
/// a fresh path.
proof fn lemma_extend_path(graph: Seq<Vec<usize>>, seen: Seq<bool>, path: Seq<int>, x: int)
    requires
        is_fresh_path(graph, seen, path),
        is_edge(graph, path.last(), x),
        0 <= x < graph.len(),
        !seen[x],
    ensures
        is_fresh_path(graph, seen, path.push(x)),
{
    let longer = path.push(x);
    assert forall|i: int| 1 <= i < longer.len() implies is_edge(
        graph,
        longer[i - 1],
        #[trigger] longer[i],
    ) by {
        if i < path.len() {
            assert(is_edge(graph, path[i - 1], path[i]));
        }
    }
}

/// A fresh path from a neighbour of `v`, entered from `v`, is a fresh path
/// from `v`, also for fewer marks.
proof fn lemma_prepend_path(
    graph: Seq<Vec<usize>>,
    seen: Seq<bool>,
    fewer: Seq<bool>,
    path: Seq<int>,
    v: int,
)
    requires
        is_fresh_path(graph, seen, path),
        is_edge(graph, v, path[0]),
        0 <= v < graph.len(),
        !seen[path[0]],
        seen.len() == fewer.len(),
        graph.len() == seen.len(),
        forall|i: int| 0 <= i < fewer.len() && fewer[i] ==> seen[i],
    ensures
        is_fresh_path(graph, fewer, seq![v] + path),
{
    let longer = seq![v] + path;
    assert forall|i: int| 1 <= i < longer.len() implies is_edge(
        graph,
        longer[i - 1],
        #[trigger] longer[i],
    ) && !fewer[longer[i]] by {
        assert(longer[i] == path[i - 1]);
        if i >= 2 {
            assert(longer[i - 1] == path[i - 2]);
            assert(is_edge(graph, path[i - 2], path[i - 1]));
            assert(!seen[path[i - 1]]);
        }
    }
    assert forall|i: int| 0 <= i < longer.len() implies 0 <= #[trigger] longer[i] < graph.len() by {
        if i >= 1 {
            assert(longer[i] == path[i - 1]);
        }
    }
}

/// Whether every neighbour of every vertex that is marked in `now` but was
/// not in `before`, other than `v`, is marked in `now`.
spec fn new_marks_closed(graph: Seq<Vec<usize>>, before: Seq<bool>, now: Seq<bool>, v: int) -> bool {
    forall|u: int, e: int|
        0 <= u < graph.len() && now[u] && !before[u] && u != v && 0 <= e < graph[u]@.len()
            ==> now[#[trigger] graph[u]@[e] as int]
}

/// In a set of marks that is closed under the edges that leave its new
/// marks and `v`, every vertex of a fresh path from `v` is marked.
proof fn lemma_path_is_marked(
    graph: Seq<Vec<usize>>,
    before: Seq<bool>,
    now: Seq<bool>,
    v: int,
    path: Seq<int>,
    i: int,
)
    requires
        is_graph(graph),
        before.len() == graph.len(),
        now.len() == graph.len(),
        is_fresh_path(graph, before, path),
        path[0] == v,
        now[v],
        new_marks_closed(graph, before, now, v),
        forall|e: int| 0 <= e < graph[v]@.len() ==> now[#[trigger] graph[v]@[e] as int],
        0 <= i < path.len(),
    ensures
        now[path[i]],
    decreases i,
{
    if i > 0 {
        lemma_path_is_marked(graph, before, now, v, path, i - 1);
        let u = path[i - 1];
        assert(is_edge(graph, u, path[i]));
        let e = choose|e: int| 0 <= e < graph[u]@.len() && #[trigger] graph[u]@[e] == path[i];
        if u != v {
            if i - 1 >= 1 {
                assert(!before[path[i - 1]]);
            }
            assert(now[graph[u]@[e] as int]);
        } else {
            assert(now[graph[v]@[e] as int]);
        }
    }
}

/// Marks `v` and every vertex that can be reached from `v` over vertices
/// that were not marked before.
pub fn dfs(graph: &Vec<Vec<usize>>, seen: &mut Vec<bool>, v: usize)
    requires
        is_graph(graph@),
        old(seen)@.len() == graph@.len(),
        v < graph@.len(),
    ensures
        final(seen)@.len() == graph@.len(),
        forall|w: int|
            0 <= w < graph@.len() ==> (#[trigger] final(seen)@[w] <==> old(seen)@[w]
                || reaches_fresh(graph@, old(seen)@, v as int, w)),
    decreases count_unseen(old(seen)@), (if old(seen)@[v as int] {
        1nat
    } else {
        0nat
    }),
{
    let ghost before = seen@;
    seen[v] = true;
    let ghost marked = seen@;
    proof {
        lemma_count_unseen_shrinks(before, marked);
        assert(is_fresh_path(graph@, before, seq![v as int]));
        assert(connects(seq![v as int], v as int, v as int));
    }
    let degree = graph[v].len();
    let mut e: usize = 0;
    while e < degree
        invariant
            is_graph(graph@),
            before == old(seen)@,
            before.len() == graph@.len(),
            marked == before.update(v as int, true),
            seen@.len() == graph@.len(),
            v < graph@.len(),
            degree == graph@[v as int]@.len(),
            e <= degree,
            seen@[v as int],
            forall|w: int| 0 <= w < graph@.len() && marked[w] ==> seen@[w],
            forall|w: int|
                0 <= w < graph@.len() && #[trigger] seen@[w] && !before[w] ==> reaches_fresh(
                    graph@,
                    before,
                    v as int,
                    w,
                ),
            new_marks_closed(graph@, before, seen@, v as int),
            forall|d: int| 0 <= d < e ==> seen@[#[trigger] graph@[v as int]@[d] as int],
        decreases degree - e,
    {
        let next = graph[v][e];
        let ghost now = seen@;
        if !seen[next] {
            proof {
                lemma_count_unseen_shrinks(marked, now);
                lemma_count_unseen_shrinks(before, marked);
                if !before[v as int] {
                    assert(!before[v as int] && marked[v as int]);
                    assert(count_unseen(now) < count_unseen(before));
                } else {
                    assert(count_unseen(now) <= count_unseen(before));
                }
                assert(!now[next as int]);
            }
            dfs(graph, seen, next);
            proof {
                let after = seen@;
                assert forall|i: int| 0 <= i < before.len() && before[i] implies now[i] by {
                    assert(marked[i]);
                }
                assert forall|w: int|
                    0 <= w < graph@.len() && #[trigger] after[w] && !before[w] implies reaches_fresh(
                    graph@,
                    before,
                    v as int,
                    w,
                ) by {
                    if !now[w] {
                        let p = choose|p: Seq<int>| #[trigger]
                            is_fresh_path(graph@, now, p) && connects(p, next as int, w);
                        lemma_prepend_path(graph@, now, before, p, v as int);
                        let longer = seq![v as int] + p;
                        assert(connects(longer, v as int, w));
                    }
                }
                assert forall|u: int, d: int|
                    0 <= u < graph@.len() && after[u] && !before[u] && u != v && 0 <= d
                        < graph@[u]@.len() implies after[#[trigger] graph@[u]@[d] as int] by {
                    let x = graph@[u]@[d] as int;
                    if now[u] {
                        assert(now[x]);
                    } else if !now[x] {
                        let p = choose|p: Seq<int>| #[trigger]
                            is_fresh_path(graph@, now, p) && connects(p, next as int, u);
                        lemma_extend_path(graph@, now, p, x);
                        assert(connects(p.push(x), next as int, x));
                        assert(reaches_fresh(graph@, now, next as int, x));
                    }
                }
                assert(is_fresh_path(graph@, now, seq![next as int]));
                assert(connects(seq![next as int], next as int, next as int));
            }
        }
        e += 1;
    }
    proof {
        assert forall|w: int| 0 <= w < graph@.len() implies (#[trigger] seen@[w] <==> before[w]
            || reaches_fresh(graph@, before, v as int, w)) by {
            if reaches_fresh(graph@, before, v as int, w) {
                let p = choose|p: Seq<int>| #[trigger]
                    is_fresh_path(graph@, before, p) && connects(p, v as int, w);
                lemma_path_is_marked(graph@, before, seen@, v as int, p, p.len() - 1);
            }
            if before[w] {
                assert(marked[w]);
            }
        }
    }
}

} // verus!
