//! Breadth-first distances in a graph.

use crate::graph::{
    connects, is_distance, is_edge, is_graph, is_path, is_unreachable, lemma_path_push,
    reachable_in,
};
use crate::grid::{in_grid, is_grid_walk, is_step, joins, lemma_walk_push, neighbor, neighbor_spec};
use std::collections::VecDeque;
use vstd::prelude::*;

verus! {

/// The distance that stands for "not reached": `2^30`.
pub const BFS_INF: usize = 0x4000_0000;

/// The number of entries of `dist` that are not [`BFS_INF`].
pub open spec fn count_reached(dist: Seq<usize>) -> nat
    decreases dist.len(),
{
    if dist.len() == 0 {
        0
    } else {
        count_reached(dist.drop_last()) + if dist.last() == BFS_INF {
            0nat
        } else {
            1nat
        }
    }
}

/// There are at most as many reached entries as entries, and fewer where
/// some entry is not reached.
proof fn lemma_count_reached_bound(dist: Seq<usize>)
    ensures
        count_reached(dist) <= dist.len(),
        (exists|i: int| 0 <= i < dist.len() && dist[i] == BFS_INF) ==> count_reached(dist)
            < dist.len(),
    decreases dist.len(),
{
    if dist.len() > 0 {
        let front = dist.drop_last();
        lemma_count_reached_bound(front);
        if exists|i: int| 0 <= i < dist.len() && dist[i] == BFS_INF {
            let i = choose|i: int| 0 <= i < dist.len() && dist[i] == BFS_INF;
            if i < dist.len() - 1 {
                assert(front[i] == BFS_INF);
            }
        }
    }
}

/// Reaching one more entry raises the count by one.
proof fn lemma_count_reached_update(dist: Seq<usize>, w: int, d: usize)
    requires
        0 <= w < dist.len(),
        dist[w] == BFS_INF,
        d != BFS_INF,
    ensures
        count_reached(dist.update(w, d)) == count_reached(dist) + 1,
    decreases dist.len(),
{
    let after = dist.update(w, d);
    if w == dist.len() - 1 {
        assert(after.drop_last() =~= dist.drop_last());
    } else {
        assert(after.drop_last() =~= dist.drop_last().update(w, d));
        lemma_count_reached_update(dist.drop_last(), w, d);
    }
}

/// Whether every edge that leaves `u` leads to a vertex that is reached
/// and at most one step farther than `u`.
spec fn is_settled(graph: Seq<Vec<usize>>, dist: Seq<usize>, u: int) -> bool {
    forall|e: int|
        0 <= e < graph[u]@.len() ==> dist[#[trigger] graph[u]@[e] as int] <= dist[u] + 1
            && dist[graph[u]@[e] as int] < BFS_INF
}

/// Whether the entries of `dist` that are reached are lengths of walks
/// from `s`.
spec fn is_sound(graph: Seq<Vec<usize>>, dist: Seq<usize>, s: int) -> bool {
    forall|w: int|
        0 <= w < graph.len() && #[trigger] dist[w] < BFS_INF ==> reachable_in(
            graph,
            s,
            w,
            dist[w] as int,
        )
}

/// Where every reached vertex is settled, no walk from `s` is shorter than
/// the distance found for its end.
proof fn lemma_walk_not_shorter(
    graph: Seq<Vec<usize>>,
    dist: Seq<usize>,
    s: int,
    path: Seq<int>,
    i: int,
)
    requires
        is_graph(graph),
        dist.len() == graph.len(),
        is_path(graph, path),
        path[0] == s,
        dist[s] == 0,
        forall|u: int| 0 <= u < graph.len() && dist[u] < BFS_INF ==> is_settled(graph, dist, u),
        0 <= i < path.len(),
    ensures
        dist[path[i]] <= i,
        dist[path[i]] < BFS_INF,
    decreases i,
{
    if i > 0 {
        lemma_walk_not_shorter(graph, dist, s, path, i - 1);
        let u = path[i - 1];
        assert(is_edge(graph, u, path[i]));
        let e = choose|e: int| 0 <= e < graph[u]@.len() && #[trigger] graph[u]@[e] == path[i];
        assert(is_settled(graph, dist, u));
        assert(dist[graph[u]@[e] as int] <= dist[u] + 1);
    }
}

/// The distances found by a search that settled every vertex it reached
/// are the true distances.
proof fn lemma_settled_is_exact(graph: Seq<Vec<usize>>, dist: Seq<usize>, s: int)
    requires
        is_graph(graph),
        dist.len() == graph.len(),
        0 <= s < graph.len(),
        dist[s] == 0,
        is_sound(graph, dist, s),
        forall|u: int| 0 <= u < graph.len() && dist[u] < BFS_INF ==> is_settled(graph, dist, u),
        forall|u: int| 0 <= u < graph.len() ==> dist[u] <= BFS_INF,
    ensures
        forall|w: int|
            0 <= w < graph.len() ==> if #[trigger] dist[w] == BFS_INF {
                is_unreachable(graph, s, w)
            } else {
                is_distance(graph, s, w, dist[w] as int)
            },
{
    assert forall|w: int| 0 <= w < graph.len() implies if #[trigger] dist[w] == BFS_INF {
        is_unreachable(graph, s, w)
    } else {
        is_distance(graph, s, w, dist[w] as int)
    } by {
        assert forall|steps: int| reachable_in(graph, s, w, steps) implies dist[w] <= steps
            && dist[w] < BFS_INF by {
            let path = choose|path: Seq<int>| #[trigger]
                is_path(graph, path) && connects(path, s, w) && path.len() == steps + 1;
            lemma_walk_not_shorter(graph, dist, s, path, steps);
        }
    }
}

/// The number of edges of a shortest walk from `s` to every vertex;
/// [`BFS_INF`] for a vertex that no walk reaches.
///
/// The graph may have up to `2^30` vertices.
pub fn bfs(graph: &Vec<Vec<usize>>, s: usize) -> (dist: Vec<usize>)
    requires
        is_graph(graph@),
        s < graph@.len(),
        graph@.len() <= BFS_INF,
    ensures
        dist@.len() == graph@.len(),
        forall|w: int|
            0 <= w < graph@.len() ==> if #[trigger] dist@[w] == BFS_INF {
                is_unreachable(graph@, s as int, w)
            } else {
                is_distance(graph@, s as int, w, dist@[w] as int)
            },
{
    let n = graph.len();
    let mut dist: Vec<usize> = Vec::new();
    while dist.len() < n
        invariant
            dist@.len() <= n,
            forall|w: int| 0 <= w < dist@.len() ==> dist@[w] == BFS_INF,
            count_reached(dist@) == 0,
        decreases n - dist@.len(),
    {
        let ghost before = dist@;
        dist.push(BFS_INF);
        assert(dist@.drop_last() =~= before);
    }
    let mut que: VecDeque<usize> = VecDeque::new();
    proof {
        lemma_count_reached_update(dist@, s as int, 0);
        assert(is_path(graph@, seq![s as int]));
        assert(connects(seq![s as int], s as int, s as int));
    }
    dist[s] = 0;
    que.push_back(s);
    let ghost mut pops: nat = 0;
    proof {
        assert(que@[0] == s);
        assert(que@.contains(s));
    }
    while que.len() > 0
        invariant
            is_graph(graph@),
            n == graph@.len(),
            n <= BFS_INF,
            s < n,
            dist@.len() == n,
            dist@[s as int] == 0,
            forall|w: int| 0 <= w < n ==> dist@[w] <= BFS_INF,
            forall|i: int| 0 <= i < que@.len() ==> #[trigger] que@[i] < n && dist@[que@[i] as int] < BFS_INF,
            forall|i: int, j: int|
                0 <= i <= j < que@.len() ==> dist@[#[trigger] que@[i] as int] <= dist@[#[trigger] que@[j] as int]
                    <= dist@[que@[0] as int] + 1,
            forall|w: int|
                0 <= w < n && #[trigger] dist@[w] < BFS_INF && que@.len() > 0 ==> dist@[w] <= dist@[que@[0] as int]
                    + 1,
            forall|u: int|
                0 <= u < n && dist@[u] < BFS_INF && !que@.contains(u as usize) ==> #[trigger] is_settled(
                    graph@,
                    dist@,
                    u,
                ),
            is_sound(graph@, dist@, s as int),
            que@.len() + pops == count_reached(dist@),
            que@.len() > 0 ==> dist@[que@[0] as int] <= pops,
        decreases n - pops,
    {
        let ghost waiting = que@;
        let u = que.pop_front().unwrap();
        let level = dist[u];
        proof {
            pops = pops + 1;
            lemma_count_reached_bound(dist@);
            assert(que@ =~= waiting.drop_first());
            assert forall|i: int| 0 <= i < que@.len() implies level <= dist@[#[trigger] que@[i] as int]
                <= level + 1 by {
                assert(que@[i] == waiting[i + 1]);
                assert(dist@[waiting[0] as int] <= dist@[waiting[i + 1] as int]);
            }
            assert forall|x: int|
                0 <= x < n && dist@[x] < BFS_INF && !que@.contains(x as usize) && x != u implies #[trigger] is_settled(
                graph@,
                dist@,
                x,
            ) by {
                if waiting.contains(x as usize) {
                    let i = choose|i: int| 0 <= i < waiting.len() && waiting[i] == x as usize;
                    assert(que@[i - 1] == x as usize);
                }
            }
            assert forall|i: int, j: int| 0 <= i <= j < que@.len() implies dist@[#[trigger] que@[i] as int]
                <= dist@[#[trigger] que@[j] as int] by {
                assert(que@[i] == waiting[i + 1] && que@[j] == waiting[j + 1]);
            }
        }
        let degree = graph[u].len();
        let mut e: usize = 0;
        while e < degree
            invariant
                is_graph(graph@),
                n == graph@.len(),
                n <= BFS_INF,
                s < n,
                u < n,
                dist@.len() == n,
                dist@[s as int] == 0,
                dist@[u as int] == level,
                level < BFS_INF,
                level + 1 <= pops,
                degree == graph@[u as int]@.len(),
                e <= degree,
                forall|w: int| 0 <= w < n ==> dist@[w] <= BFS_INF,
                forall|i: int|
                    0 <= i < que@.len() ==> #[trigger] que@[i] < n && level <= dist@[que@[i] as int]
                        <= level + 1 && dist@[que@[i] as int] < BFS_INF,
                forall|i: int, j: int|
                    0 <= i <= j < que@.len() ==> dist@[#[trigger] que@[i] as int] <= dist@[#[trigger] que@[j] as int],
                forall|w: int| 0 <= w < n && #[trigger] dist@[w] < BFS_INF ==> dist@[w] <= level + 1,
                forall|x: int|
                    0 <= x < n && dist@[x] < BFS_INF && !que@.contains(x as usize) && x != u
                        ==> #[trigger] is_settled(graph@, dist@, x),
                is_sound(graph@, dist@, s as int),
                que@.len() + pops == count_reached(dist@),
                forall|d: int|
                    0 <= d < e ==> dist@[#[trigger] graph@[u as int]@[d] as int] <= level + 1
                        && dist@[graph@[u as int]@[d] as int] < BFS_INF,
            decreases degree - e,
        {
            let v = graph[u][e];
            if dist[v] == BFS_INF {
                let ghost old_dist = dist@;
                let ghost old_que = que@;
                proof {
                    lemma_count_reached_bound(dist@);
                    lemma_count_reached_update(dist@, v as int, (level + 1) as usize);
                    // A walk to `u`, continued to `v`.
                    let path = choose|path: Seq<int>| #[trigger]
                        is_path(graph@, path) && connects(path, s as int, u as int) && path.len()
                            == level + 1;
                    assert(is_edge(graph@, u as int, v as int));
                    lemma_path_push(graph@, path, v as int);
                    assert(connects(path.push(v as int), s as int, v as int));
                    assert(reachable_in(graph@, s as int, v as int, level + 1));
                }
                dist[v] = level + 1;
                que.push_back(v);
                proof {
                    assert forall|w: int|
                        0 <= w < n && #[trigger] dist@[w] < BFS_INF implies reachable_in(
                        graph@,
                        s as int,
                        w,
                        dist@[w] as int,
                    ) by {
                        if w != v {
                            assert(old_dist[w] < BFS_INF);
                        }
                    }
                    assert forall|x: int|
                        0 <= x < n && dist@[x] < BFS_INF && !que@.contains(x as usize) && x
                            != u implies #[trigger] is_settled(graph@, dist@, x) by {
                        assert(x != v) by {
                            assert(que@[que@.len() - 1] == v);
                        }
                        if old_que.contains(x as usize) {
                            let i = choose|i: int| 0 <= i < old_que.len() && old_que[i] == x as usize;
                            assert(que@[i] == x as usize);
                        }
                        assert(is_settled(graph@, old_dist, x));
                        assert forall|d: int| 0 <= d < graph@[x]@.len() implies dist@[#[trigger] graph@[x]@[d] as int]
                            <= dist@[x] + 1 && dist@[graph@[x]@[d] as int] < BFS_INF by {
                            assert(old_dist[graph@[x]@[d] as int] < BFS_INF);
                        }
                    }
                    assert forall|i: int|
                        0 <= i < que@.len() implies #[trigger] que@[i] < n && level <= dist@[que@[i] as int]
                        <= level + 1 && dist@[que@[i] as int] < BFS_INF by {
                        if i < old_que.len() {
                            assert(que@[i] == old_que[i]);
                            assert(old_dist[old_que[i] as int] < BFS_INF);
                        }
                    }
                    assert forall|i: int, j: int| 0 <= i <= j < que@.len() implies dist@[#[trigger] que@[i] as int]
                        <= dist@[#[trigger] que@[j] as int] by {
                        if j < old_que.len() {
                            assert(que@[i] == old_que[i] && que@[j] == old_que[j]);
                            assert(old_dist[old_que[i] as int] <= old_dist[old_que[j] as int]);
                        } else if i < old_que.len() {
                            assert(que@[i] == old_que[i]);
                            assert(old_dist[old_que[i] as int] < BFS_INF);
                        }
                    }
                    assert forall|d: int| 0 <= d < e + 1 implies dist@[#[trigger] graph@[u as int]@[d] as int]
                        <= level + 1 && dist@[graph@[u as int]@[d] as int] < BFS_INF by {
                        if d < e {
                            assert(old_dist[graph@[u as int]@[d] as int] < BFS_INF);
                        }
                    }
                }
            }
            e += 1;
        }
        proof {
            assert(is_settled(graph@, dist@, u as int));
            assert forall|i: int, j: int| 0 <= i <= j < que@.len() implies dist@[#[trigger] que@[i] as int]
                <= dist@[#[trigger] que@[j] as int] <= dist@[que@[0] as int] + 1 by {
                assert(level <= dist@[que@[0] as int]);
            }
            lemma_count_reached_bound(dist@);
        }
    }
    proof {
        assert forall|u: int| 0 <= u < n && dist@[u] < BFS_INF implies is_settled(
            graph@,
            dist@,
            u,
        ) by {
            assert(!que@.contains(u as usize));
        }
        lemma_settled_is_exact(graph@, dist@, s as int);
    }
    dist
}

/// The entry of `dist` for the cell `c`.
pub open spec fn at(dist: Seq<Vec<usize>>, c: (int, int)) -> int {
    dist[c.0]@[c.1] as int
}

/// Whether the cell `c` of `field` may be entered: it does not hold `'#'`.
pub open spec fn is_open(field: Seq<Vec<char>>, c: (int, int)) -> bool {
    field[c.0]@[c.1] != '#'
}

/// Whether `walk` is a walk in the grid that enters open cells only. The
/// cell it starts on is not entered.
pub open spec fn is_open_walk(field: Seq<Vec<char>>, h: int, w: int, walk: Seq<(int, int)>) -> bool {
    &&& is_grid_walk(h, w, walk)
    &&& forall|i: int| 1 <= i < walk.len() ==> is_open(field, #[trigger] walk[i])
}

/// Whether some open walk of `steps` steps leads from `from` to `to`.
pub open spec fn grid_reachable_in(
    field: Seq<Vec<char>>,
    h: int,
    w: int,
    from: (int, int),
    to: (int, int),
    steps: int,
) -> bool {
    exists|walk: Seq<(int, int)>| #[trigger]
        is_open_walk(field, h, w, walk) && joins(walk, from, to) && walk.len() == steps + 1
}

/// Whether `d` is the sentinel [`BFS_INF`] and no open walk leads from
/// `from` to `to`, or `d` is the least number of steps of such a walk.
pub open spec fn is_grid_distance(
    field: Seq<Vec<char>>,
    h: int,
    w: int,
    from: (int, int),
    to: (int, int),
    d: int,
) -> bool {
    if d == BFS_INF {
        forall|steps: int| !grid_reachable_in(field, h, w, from, to, steps)
    } else {
        &&& grid_reachable_in(field, h, w, from, to, d)
        &&& forall|fewer: int| 0 <= fewer < d ==> !grid_reachable_in(field, h, w, from, to, fewer)
    }
}

/// Whether `dist` has `h` rows of `w` entries, none beyond [`BFS_INF`].
pub open spec fn is_distance_table(dist: Seq<Vec<usize>>, h: int, w: int) -> bool {
    &&& dist.len() == h
    &&& forall|i: int| 0 <= i < h ==> (#[trigger] dist[i])@.len() == w
    &&& forall|i: int, j: int| 0 <= i < h && 0 <= j < w ==> #[trigger] at(dist, (i, j)) <= BFS_INF
}

/// The number of entries of a table that are not [`BFS_INF`].
spec fn count_reached_cells(dist: Seq<Vec<usize>>) -> nat
    decreases dist.len(),
{
    if dist.len() == 0 {
        0
    } else {
        count_reached_cells(dist.drop_last()) + count_reached(dist.last()@)
    }
}

/// A table of `h` rows of `w` entries has at most `h * w` reached cells,
/// and fewer where some cell is not reached.
proof fn lemma_count_cells_bound(dist: Seq<Vec<usize>>, h: int, w: int)
    requires
        dist.len() == h,
        forall|i: int| 0 <= i < h ==> (#[trigger] dist[i])@.len() == w,
    ensures
        count_reached_cells(dist) <= h * w,
        (exists|i: int, j: int| 0 <= i < h && 0 <= j < w && at(dist, (i, j)) == BFS_INF)
            ==> count_reached_cells(dist) < h * w,
    decreases dist.len(),
{
    if dist.len() > 0 {
        let front = dist.drop_last();
        lemma_count_cells_bound(front, h - 1, w);
        lemma_count_reached_bound(dist.last()@);
        assert((h - 1) * w + w == h * w) by (nonlinear_arith);
        if exists|i: int, j: int| 0 <= i < h && 0 <= j < w && at(dist, (i, j)) == BFS_INF {
            let (i, j) = choose|i: int, j: int|
                0 <= i < h && 0 <= j < w && at(dist, (i, j)) == BFS_INF;
            if i < h - 1 {
                assert(at(front, (i, j)) == BFS_INF);
            } else {
                assert(dist.last()@[j] == BFS_INF);
            }
        }
    } else {
        assert(0 * w == 0) by (nonlinear_arith);
    }
}

/// Reaching one more cell raises the count by one.
proof fn lemma_count_cells_update(before: Seq<Vec<usize>>, after: Seq<Vec<usize>>, i: int, j: int, d: usize)
    requires
        0 <= i < before.len(),
        0 <= j < before[i]@.len(),
        before[i]@[j] == BFS_INF,
        d != BFS_INF,
        after.len() == before.len(),
        after[i]@ == before[i]@.update(j, d),
        forall|k: int| 0 <= k < before.len() && k != i ==> after[k]@ == before[k]@,
    ensures
        count_reached_cells(after) == count_reached_cells(before) + 1,
    decreases before.len(),
{
    let last = before.len() - 1;
    if i == last {
        lemma_count_reached_update(before[i]@, j, d);
        lemma_count_cells_same(before.drop_last(), after.drop_last());
    } else {
        lemma_count_cells_update(before.drop_last(), after.drop_last(), i, j, d);
    }
}

/// Tables with the same rows have the same number of reached cells.
proof fn lemma_count_cells_same(a: Seq<Vec<usize>>, b: Seq<Vec<usize>>)
    requires
        a.len() == b.len(),
        forall|k: int| 0 <= k < a.len() ==> a[k]@ == b[k]@,
    ensures
        count_reached_cells(a) == count_reached_cells(b),
    decreases a.len(),
{
    if a.len() > 0 {
        lemma_count_cells_same(a.drop_last(), b.drop_last());
    }
}

/// Whether every open neighbour of `c` is reached and at most one step
/// farther than `c`.
spec fn is_cell_settled(field: Seq<Vec<char>>, dist: Seq<Vec<usize>>, h: int, w: int, c: (int, int)) -> bool {
    forall|dir: int|
        0 <= dir < 4 ==> (#[trigger] neighbor_spec(h, w, c, dir) matches Some(v) ==> (is_open(
            field,
            v,
        ) ==> at(dist, v) <= at(dist, c) + 1 && at(dist, v) < BFS_INF))
}

/// Whether every reached entry is the length of an open walk from `s`.
spec fn is_grid_sound(field: Seq<Vec<char>>, dist: Seq<Vec<usize>>, h: int, w: int, s: (int, int)) -> bool {
    forall|i: int, j: int|
        0 <= i < h && 0 <= j < w && #[trigger] at(dist, (i, j)) < BFS_INF ==> grid_reachable_in(
            field,
            h,
            w,
            s,
            (i, j),
            at(dist, (i, j)),
        )
}

/// Whether every reached cell that does not wait in `queue`, other than
/// `except`, is settled.
spec fn idle_cells_settled(
    field: Seq<Vec<char>>,
    dist: Seq<Vec<usize>>,
    h: int,
    w: int,
    queue: Seq<(usize, usize)>,
    except: Option<(int, int)>,
) -> bool {
    forall|i: int, j: int|
        0 <= i < h && 0 <= j < w && at(dist, (i, j)) < BFS_INF && !queue.contains(
            (i as usize, j as usize),
        ) && except != Some((i, j)) ==> #[trigger] is_cell_settled(field, dist, h, w, (i, j))
}

/// The distance found for the cell that waits at position `k`.
spec fn waiting_at(dist: Seq<Vec<usize>>, queue: Seq<(usize, usize)>, k: int) -> int {
    at(dist, (queue[k].0 as int, queue[k].1 as int))
}

/// Where every reached cell is settled, no open walk from `s` is shorter
/// than the distance found for its end.
proof fn lemma_open_walk_not_shorter(
    field: Seq<Vec<char>>,
    dist: Seq<Vec<usize>>,
    h: int,
    w: int,
    s: (int, int),
    walk: Seq<(int, int)>,
    i: int,
)
    requires
        is_distance_table(dist, h, w),
        is_open_walk(field, h, w, walk),
        walk[0] == s,
        at(dist, s) == 0,
        idle_cells_settled(field, dist, h, w, Seq::empty(), None),
        0 <= i < walk.len(),
    ensures
        at(dist, walk[i]) <= i,
        at(dist, walk[i]) < BFS_INF,
    decreases i,
{
    if i > 0 {
        lemma_open_walk_not_shorter(field, dist, h, w, s, walk, i - 1);
        let u = walk[i - 1];
        let v = walk[i];
        assert(in_grid(h, w, u) && in_grid(h, w, v));
        assert(is_step(h, w, u, v));
        assert(is_open(field, v));
        let dir = choose|dir: int| 0 <= dir < 4 && #[trigger] neighbor_spec(h, w, u, dir) == Some(v);
        assert(!Seq::<(usize, usize)>::empty().contains((u.0 as usize, u.1 as usize)));
        assert(is_cell_settled(field, dist, h, w, u));
        assert(neighbor_spec(h, w, u, dir) == Some(v));
    }
}

/// A table of `h` rows of `w` entries, all [`BFS_INF`].
fn unreached_table(h: usize, w: usize) -> (dist: Vec<Vec<usize>>)
    ensures
        is_distance_table(dist@, h as int, w as int),
        forall|i: int, j: int| 0 <= i < h && 0 <= j < w ==> #[trigger] at(dist@, (i, j)) == BFS_INF,
        count_reached_cells(dist@) == 0,
{
    let mut dist: Vec<Vec<usize>> = Vec::new();
    while dist.len() < h
        invariant
            dist@.len() <= h,
            forall|i: int| 0 <= i < dist@.len() ==> (#[trigger] dist@[i])@.len() == w,
            forall|i: int, j: int|
                0 <= i < dist@.len() && 0 <= j < w ==> #[trigger] at(dist@, (i, j)) == BFS_INF,
            count_reached_cells(dist@) == 0,
        decreases h - dist@.len(),
    {
        let mut row: Vec<usize> = Vec::new();
        while row.len() < w
            invariant
                row@.len() <= w,
                forall|j: int| 0 <= j < row@.len() ==> row@[j] == BFS_INF,
                count_reached(row@) == 0,
            decreases w - row@.len(),
        {
            let ghost shorter = row@;
            row.push(BFS_INF);
            assert(row@.drop_last() =~= shorter);
        }
        let ghost before = dist@;
        dist.push(row);
        proof {
            assert(dist@.drop_last() =~= before);
            assert forall|i: int, j: int|
                0 <= i < dist@.len() && 0 <= j < w implies #[trigger] at(dist@, (i, j))
                == BFS_INF by {
                if i < before.len() {
                    assert(dist@[i] == before[i]);
                    assert(at(before, (i, j)) == BFS_INF);
                }
            }
        }
    }
    dist
}

/// The least number of steps from `s` to every cell of a rectangular grid,
/// where a step leads to a neighbouring cell that does not hold `'#'`;
/// [`BFS_INF`] for a cell that cannot be reached. An empty grid gives an
/// empty result.
///
/// The grid may have up to `2^30` cells.
pub fn grid_bfs(field: &Vec<Vec<char>>, s: (usize, usize)) -> (dist: Vec<Vec<usize>>)
    requires
        field@.len() > 0 ==> {
            &&& forall|i: int| 0 <= i < field@.len() ==> (#[trigger] field@[i])@.len() == field@[0]@.len()
            &&& s.0 < field@.len()
            &&& s.1 < field@[0]@.len()
            &&& field@.len() * field@[0]@.len() <= BFS_INF
        },
    ensures
        field@.len() == 0 ==> dist@.len() == 0,
        field@.len() > 0 ==> is_distance_table(dist@, field@.len() as int, field@[0]@.len() as int),
        field@.len() > 0 ==> forall|i: int, j: int|
            0 <= i < field@.len() && 0 <= j < field@[0]@.len() ==> is_grid_distance(
                field@,
                field@.len() as int,
                field@[0]@.len() as int,
                (s.0 as int, s.1 as int),
                (i, j),
                #[trigger] at(dist@, (i, j)),
            ),
{
    if field.len() == 0 {
        return Vec::new();
    }
    let h = field.len();
    let w = field[0].len();
    let ghost origin = (s.0 as int, s.1 as int);
    let ghost (hh, ww) = (h as int, w as int);
    let mut dist = unreached_table(h, w);
    let mut que: VecDeque<(usize, usize)> = VecDeque::new();
    let ghost blank = dist@;
    dist[s.0][s.1] = 0;
    que.push_back(s);
    let ghost mut pops: nat = 0;
    proof {
        assert(at(blank, origin) == BFS_INF);
        lemma_count_cells_update(blank, dist@, s.0 as int, s.1 as int, 0);
        assert forall|i: int, j: int| 0 <= i < h && 0 <= j < w implies #[trigger] at(dist@, (i, j))
            == (if (i, j) == origin {
            0
        } else {
            BFS_INF as int
        }) by {
            assert(at(blank, (i, j)) == BFS_INF);
        }
        let alone = seq![origin];
        assert(is_open_walk(field@, hh, ww, alone));
        assert(joins(alone, origin, origin));
        assert(que@[0] == s);
        assert(que@.contains(s));
    }
    while que.len() > 0
        invariant
            hh == h,
            ww == w,
            h == field@.len(),
            w == field@[0]@.len(),
            h * w <= BFS_INF,
            origin == (s.0 as int, s.1 as int),
            forall|i: int| 0 <= i < h ==> (#[trigger] field@[i])@.len() == w,
            in_grid(hh, ww, origin),
            is_distance_table(dist@, hh, ww),
            at(dist@, origin) == 0,
            forall|k: int|
                0 <= k < que@.len() ==> (#[trigger] que@[k]).0 < h && que@[k].1 < w && waiting_at(
                    dist@,
                    que@,
                    k,
                ) < BFS_INF,
            forall|a: int, b: int|
                0 <= a <= b < que@.len() ==> #[trigger] waiting_at(dist@, que@, a)
                    <= #[trigger] waiting_at(dist@, que@, b) <= waiting_at(dist@, que@, 0) + 1,
            forall|i: int, j: int|
                0 <= i < h && 0 <= j < w && #[trigger] at(dist@, (i, j)) < BFS_INF && que@.len() > 0
                    ==> at(dist@, (i, j)) <= waiting_at(dist@, que@, 0) + 1,
            idle_cells_settled(field@, dist@, hh, ww, que@, None),
            is_grid_sound(field@, dist@, hh, ww, origin),
            que@.len() + pops == count_reached_cells(dist@),
            que@.len() > 0 ==> waiting_at(dist@, que@, 0) <= pops,
        decreases h * w - pops,
    {
        let ghost waiting_before = que@;
        let cell = que.pop_front().unwrap();
        let (x, y) = cell;
        let ghost u = (x as int, y as int);
        let level = dist[x][y];
        proof {
            pops = pops + 1;
            lemma_count_cells_bound(dist@, hh, ww);
            assert(cell == waiting_before[0]);
            assert(level == waiting_at(dist@, waiting_before, 0));
            assert(que@ =~= waiting_before.drop_first());
            assert forall|k: int| 0 <= k < que@.len() implies (#[trigger] que@[k]).0 < h
                && que@[k].1 < w && level <= waiting_at(dist@, que@, k) <= level + 1 && waiting_at(
                dist@,
                que@,
                k,
            ) < BFS_INF by {
                assert(que@[k] == waiting_before[k + 1]);
                assert(waiting_at(dist@, waiting_before, 0) <= waiting_at(
                    dist@,
                    waiting_before,
                    k + 1,
                ));
            }
            assert forall|a: int, b: int| 0 <= a <= b < que@.len() implies #[trigger] waiting_at(
                dist@,
                que@,
                a,
            ) <= #[trigger] waiting_at(dist@, que@, b) by {
                assert(que@[a] == waiting_before[a + 1] && que@[b] == waiting_before[b + 1]);
                assert(waiting_at(dist@, waiting_before, a + 1) <= waiting_at(
                    dist@,
                    waiting_before,
                    b + 1,
                ));
            }
            assert forall|i: int, j: int|
                0 <= i < hh && 0 <= j < ww && at(dist@, (i, j)) < BFS_INF && !que@.contains(
                    (i as usize, j as usize),
                ) && Some(u) != Some((i, j)) implies #[trigger] is_cell_settled(
                field@,
                dist@,
                hh,
                ww,
                (i, j),
            ) by {
                if waiting_before.contains((i as usize, j as usize)) {
                    let k = choose|k: int|
                        0 <= k < waiting_before.len() && waiting_before[k] == (
                            i as usize,
                            j as usize,
                        );
                    assert(que@[k - 1] == (i as usize, j as usize));
                }
            }
        }
        let mut dir: usize = 0;
        while dir < 4
            invariant
                hh == h,
                ww == w,
                h == field@.len(),
                w == field@[0]@.len(),
                h * w <= BFS_INF,
                u == (x as int, y as int),
                origin == (s.0 as int, s.1 as int),
                forall|i: int| 0 <= i < h ==> (#[trigger] field@[i])@.len() == w,
                in_grid(hh, ww, origin),
                x < h,
                y < w,
                dir <= 4,
                is_distance_table(dist@, hh, ww),
                at(dist@, origin) == 0,
                at(dist@, u) == level,
                level < BFS_INF,
                level + 1 <= pops,
                forall|k: int|
                    0 <= k < que@.len() ==> (#[trigger] que@[k]).0 < h && que@[k].1 < w && level
                        <= waiting_at(dist@, que@, k) <= level + 1 && waiting_at(dist@, que@, k)
                        < BFS_INF,
                forall|a: int, b: int|
                    0 <= a <= b < que@.len() ==> #[trigger] waiting_at(dist@, que@, a)
                        <= #[trigger] waiting_at(dist@, que@, b),
                forall|i: int, j: int|
                    0 <= i < h && 0 <= j < w && #[trigger] at(dist@, (i, j)) < BFS_INF ==> at(
                        dist@,
                        (i, j),
                    ) <= level + 1,
                idle_cells_settled(field@, dist@, hh, ww, que@, Some(u)),
                is_grid_sound(field@, dist@, hh, ww, origin),
                que@.len() + pops == count_reached_cells(dist@),
                forall|d: int|
                    0 <= d < dir ==> (#[trigger] neighbor_spec(hh, ww, u, d) matches Some(v) ==> (
                    is_open(field@, v) ==> at(dist@, v) <= level + 1 && at(dist@, v) < BFS_INF)),
            decreases 4 - dir,
        {
            match neighbor(h, w, x, y, dir) {
                Some((nx, ny)) => {
                    let ghost v = (nx as int, ny as int);
                    assert(neighbor_spec(hh, ww, u, dir as int) == Some(v));
                    assert(field@[nx as int]@.len() == w);
                    assert(at(dist@, v) <= BFS_INF);
                    if field[nx][ny] != '#' && dist[nx][ny] == BFS_INF {
                        let ghost old_dist = dist@;
                        let ghost old_que = que@;
                        proof {
                            lemma_count_cells_bound(dist@, hh, ww);
                            // An open walk to `u`, continued to `v`.
                            let walk = choose|walk: Seq<(int, int)>| #[trigger]
                                is_open_walk(field@, hh, ww, walk) && joins(walk, origin, u)
                                    && walk.len() == level + 1;
                            lemma_walk_push(hh, ww, walk, v);
                            let longer = walk.push(v);
                            assert(is_open_walk(field@, hh, ww, longer)) by {
                                assert forall|i: int| 1 <= i < longer.len() implies is_open(
                                    field@,
                                    #[trigger] longer[i],
                                ) by {
                                    if i < walk.len() {
                                        assert(is_open(field@, walk[i]));
                                    }
                                }
                            }
                            assert(joins(longer, origin, v));
                            assert(grid_reachable_in(field@, hh, ww, origin, v, level + 1));
                        }
                        dist[nx][ny] = level + 1;
                        que.push_back((nx, ny));
                        proof {
                            lemma_count_cells_update(
                                old_dist,
                                dist@,
                                nx as int,
                                ny as int,
                                (level + 1) as usize,
                            );
                            assert(que@[que@.len() - 1] == (nx, ny));
                            assert(que@.contains((nx, ny)));
                            assert forall|i: int, j: int|
                                0 <= i < hh && 0 <= j < ww implies #[trigger] at(dist@, (i, j)) == (if (
                                i,
                                j,
                            ) == v {
                                level + 1
                            } else {
                                at(old_dist, (i, j))
                            }) by {}
                            assert forall|k: int| 0 <= k < que@.len() implies waiting_at(
                                dist@,
                                que@,
                                k,
                            ) == (if k < old_que.len() {
                                waiting_at(old_dist, old_que, k)
                            } else {
                                level + 1
                            }) && (#[trigger] que@[k]).0 < h && que@[k].1 < w by {
                                if k < old_que.len() {
                                    assert(que@[k] == old_que[k]);
                                    assert(waiting_at(old_dist, old_que, k) < BFS_INF);
                                }
                            }
                            assert forall|a: int, b: int|
                                0 <= a <= b < que@.len() implies #[trigger] waiting_at(dist@, que@, a)
                                <= #[trigger] waiting_at(dist@, que@, b) by {
                                assert(que@[a].0 < h && que@[b].0 < h);
                                if b < old_que.len() {
                                    assert(waiting_at(old_dist, old_que, a) <= waiting_at(
                                        old_dist,
                                        old_que,
                                        b,
                                    ));
                                } else if a < old_que.len() {
                                    assert(old_que[a].0 < h);
                                }
                            }
                            assert forall|c: (usize, usize)|
                                old_que.contains(c) implies que@.contains(c) by {
                                let k = choose|k: int| 0 <= k < old_que.len() && old_que[k] == c;
                                assert(que@[k] == c);
                            }
                            assert forall|i: int, j: int|
                                0 <= i < hh && 0 <= j < ww && at(dist@, (i, j)) < BFS_INF
                                    && !que@.contains((i as usize, j as usize)) && Some(u)
                                    != Some((i, j)) implies #[trigger] is_cell_settled(
                                field@,
                                dist@,
                                hh,
                                ww,
                                (i, j),
                            ) by {
                                assert((i, j) != v);
                                assert(!old_que.contains((i as usize, j as usize)));
                                assert(is_cell_settled(field@, old_dist, hh, ww, (i, j)));
                                assert forall|d: int| 0 <= d < 4 implies (#[trigger] neighbor_spec(
                                    hh,
                                    ww,
                                    (i, j),
                                    d,
                                ) matches Some(t) ==> (is_open(field@, t) ==> at(dist@, t) <= at(
                                    dist@,
                                    (i, j),
                                ) + 1 && at(dist@, t) < BFS_INF)) by {
                                    if let Some(t) = neighbor_spec(hh, ww, (i, j), d) {
                                        assert(in_grid(hh, ww, t));
                                        if is_open(field@, t) {
                                            assert(at(old_dist, t) < BFS_INF);
                                        }
                                    }
                                }
                            }
                            assert forall|i: int, j: int|
                                0 <= i < hh && 0 <= j < ww && #[trigger] at(dist@, (i, j))
                                    < BFS_INF implies grid_reachable_in(
                                field@,
                                hh,
                                ww,
                                origin,
                                (i, j),
                                at(dist@, (i, j)),
                            ) by {
                                if (i, j) != v {
                                    assert(at(old_dist, (i, j)) < BFS_INF);
                                }
                            }
                            assert forall|d: int| 0 <= d < dir + 1 implies (#[trigger] neighbor_spec(
                                hh,
                                ww,
                                u,
                                d,
                            ) matches Some(t) ==> (is_open(field@, t) ==> at(dist@, t) <= level + 1
                                && at(dist@, t) < BFS_INF)) by {
                                if let Some(t) = neighbor_spec(hh, ww, u, d) {
                                    assert(in_grid(hh, ww, t));
                                    if d < dir && is_open(field@, t) {
                                        assert(at(old_dist, t) < BFS_INF);
                                    }
                                }
                            }
                            assert forall|i: int, j: int|
                                0 <= i < h && 0 <= j < w && #[trigger] at(dist@, (i, j))
                                    < BFS_INF implies at(dist@, (i, j)) <= level + 1 by {
                                if (i, j) != v {
                                    assert(at(old_dist, (i, j)) < BFS_INF);
                                }
                            }
                        }
                    }
                },
                None => {},
            }
            dir += 1;
        }
        proof {
            assert(is_cell_settled(field@, dist@, hh, ww, u));
            assert forall|a: int, b: int| 0 <= a <= b < que@.len() implies #[trigger] waiting_at(
                dist@,
                que@,
                a,
            ) <= #[trigger] waiting_at(dist@, que@, b) <= waiting_at(dist@, que@, 0) + 1 by {
                assert(que@[0].0 < h);
                assert(level <= waiting_at(dist@, que@, 0));
                assert(que@[b].0 < h);
            }
            if que@.len() > 0 {
                assert(que@[0].0 < h);
            }
            lemma_count_cells_bound(dist@, hh, ww);
        }
    }
    proof {
        assert(que@ =~= Seq::<(usize, usize)>::empty());
        assert forall|i: int, j: int| 0 <= i < h && 0 <= j < w implies is_grid_distance(
            field@,
            hh,
            ww,
            origin,
            (i, j),
            #[trigger] at(dist@, (i, j)),
        ) by {
            assert forall|steps: int|
                grid_reachable_in(field@, hh, ww, origin, (i, j), steps) implies at(dist@, (i, j))
                <= steps && at(dist@, (i, j)) < BFS_INF by {
                let walk = choose|walk: Seq<(int, int)>| #[trigger]
                    is_open_walk(field@, hh, ww, walk) && joins(walk, origin, (i, j)) && walk.len()
                        == steps + 1;
                lemma_open_walk_not_shorter(field@, dist@, hh, ww, origin, walk, steps);
            }
        }
    }
    dist
}

} // verus!
