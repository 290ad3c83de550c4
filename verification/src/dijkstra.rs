//! Cheapest routes in a graph whose edges have costs.

use crate::node_heap::{Node, NodeHeap};
use vstd::multiset::Multiset;
use vstd::prelude::*;

verus! {

/// Whether every edge of `graph`, a pair of target and cost, leads to a
/// vertex of `graph`.
pub open spec fn is_weighted_graph(graph: Seq<Vec<(usize, usize)>>) -> bool {
    forall|u: int, e: int|
        0 <= u < graph.len() && 0 <= e < graph[u]@.len() ==> (#[trigger] graph[u]@[e]).0
            < graph.len()
}

/// The vertex that the `i`-th step of `route` leads to. A step is a pair
/// of a vertex and the number of an edge that leaves it.
pub open spec fn step_target(graph: Seq<Vec<(usize, usize)>>, route: Seq<(int, int)>, i: int) -> int {
    graph[route[i].0]@[route[i].1].0 as int
}

/// Whether `route` is a sequence of edges that starts at `from`, each
/// edge leaving the vertex that the edge before leads to.
pub open spec fn is_route(graph: Seq<Vec<(usize, usize)>>, from: int, route: Seq<(int, int)>) -> bool {
    &&& forall|i: int|
        0 <= i < route.len() ==> 0 <= (#[trigger] route[i]).0 < graph.len() && 0 <= route[i].1
            < graph[route[i].0]@.len()
    &&& route.len() > 0 ==> route[0].0 == from
    &&& forall|i: int| 1 <= i < route.len() ==> (#[trigger] route[i]).0 == step_target(graph, route, i - 1)
}

/// The vertex where `route` ends; `from` for the empty route.
pub open spec fn route_end(graph: Seq<Vec<(usize, usize)>>, from: int, route: Seq<(int, int)>) -> int {
    if route.len() == 0 {
        from
    } else {
        step_target(graph, route, route.len() - 1)
    }
}

/// The sum of the costs of the edges of `route`.
pub open spec fn route_cost(graph: Seq<Vec<(usize, usize)>>, route: Seq<(int, int)>) -> int
    decreases route.len(),
{
    if route.len() == 0 {
        0
    } else {
        route_cost(graph, route.drop_last()) + graph[route.last().0]@[route.last().1].1
    }
}

/// Whether `cost` is the least cost of a route from `start` to `v`, as far
/// as a `usize` tells costs apart: below `usize::MAX` it is the cost of some
/// route, and no route is cheaper than it.
pub open spec fn is_least_route_cost(
    graph: Seq<Vec<(usize, usize)>>,
    start: int,
    v: int,
    cost: int,
) -> bool {
    &&& forall|route: Seq<(int, int)>|
        is_route(graph, start, route) && route_end(graph, start, route) == v ==> cost
            <= #[trigger] route_cost(graph, route)
    &&& cost == usize::MAX || exists|route: Seq<(int, int)>|
        is_route(graph, start, route) && route_end(graph, start, route) == v
            && #[trigger] route_cost(graph, route) == cost
}

/// The sum of the entries of `dist`.
spec fn total(dist: Seq<usize>) -> nat
    decreases dist.len(),
{
    if dist.len() == 0 {
        0
    } else {
        total(dist.drop_last()) + dist.last() as nat
    }
}

/// Lowering one entry lowers the sum.
proof fn lemma_total_lowered(dist: Seq<usize>, j: int, v: usize)
    requires
        0 <= j < dist.len(),
        v < dist[j],
    ensures
        total(dist.update(j, v)) < total(dist),
    decreases dist.len(),
{
    let after = dist.update(j, v);
    if j == dist.len() - 1 {
        assert(after.drop_last() =~= dist.drop_last());
    } else {
        assert(after.drop_last() =~= dist.drop_last().update(j, v));
        lemma_total_lowered(dist.drop_last(), j, v);
    }
}

/// The sum of two costs, or `usize::MAX` if it is beyond that.
pub open spec fn capped_sum(x: int, y: int) -> int {
    if x + y >= usize::MAX {
        usize::MAX as int
    } else {
        x + y
    }
}

/// Whether no edge that leaves `u` leads anywhere more cheaply than is known.
spec fn is_settled(graph: Seq<Vec<(usize, usize)>>, dist: Seq<usize>, u: int) -> bool {
    forall|e: int|
        0 <= e < graph[u]@.len() ==> dist[(#[trigger] graph[u]@[e]).0 as int] <= capped_sum(
            dist[u] as int,
            graph[u]@[e].1 as int,
        )
}

/// Whether every cost below `usize::MAX` is the cost of a route from `start`.
spec fn is_sound(graph: Seq<Vec<(usize, usize)>>, dist: Seq<usize>, start: int) -> bool {
    forall|v: int|
        0 <= v < graph.len() && #[trigger] dist[v] < usize::MAX ==> exists|route: Seq<(int, int)>|
            is_route(graph, start, route) && route_end(graph, start, route) == v
                && #[trigger] route_cost(graph, route) == dist[v]
}

/// Whether every reached vertex other than `except` is settled or waits
/// in `queue` with the cost at which it is known.
spec fn settled_or_waiting(
    graph: Seq<Vec<(usize, usize)>>,
    dist: Seq<usize>,
    queue: Multiset<Node>,
    except: int,
) -> bool {
    forall|v: int|
        0 <= v < graph.len() && dist[v] < usize::MAX && v != except ==> #[trigger] is_settled(
            graph,
            dist,
            v,
        ) || queue.count(Node { vertex: v as usize, cost: dist[v] }) > 0
}

/// Whether the nodes of `queue` are vertices of a graph of `n` vertices,
/// none waiting with a cost below the one at which it is known.
spec fn is_queue(queue: Multiset<Node>, dist: Seq<usize>, n: int) -> bool {
    forall|node: Node|
        #[trigger] queue.count(node) > 0 ==> node.vertex < n && dist[node.vertex as int] <= node.cost
}

/// A route continued by an edge that leaves its end is a route.
proof fn lemma_route_push(graph: Seq<Vec<(usize, usize)>>, start: int, route: Seq<(int, int)>, e: int)
    requires
        is_weighted_graph(graph),
        0 <= start < graph.len(),
        is_route(graph, start, route),
        0 <= e < graph[route_end(graph, start, route)]@.len(),
    ensures
        is_route(graph, start, route.push((route_end(graph, start, route), e))),
        route_end(graph, start, route.push((route_end(graph, start, route), e)))
            == graph[route_end(graph, start, route)]@[e].0,
        route_cost(graph, route.push((route_end(graph, start, route), e))) == route_cost(
            graph,
            route,
        ) + graph[route_end(graph, start, route)]@[e].1,
{
    let u = route_end(graph, start, route);
    let longer = route.push((u, e));
    assert(longer.drop_last() =~= route);
    if route.len() > 0 {
        let last = route[route.len() - 1];
        assert(0 <= last.0 < graph.len() && 0 <= last.1 < graph[last.0]@.len());
        assert(graph[last.0]@[last.1].0 < graph.len());
    }
    assert forall|i: int| 1 <= i < longer.len() implies (#[trigger] longer[i]).0 == step_target(
        graph,
        longer,
        i - 1,
    ) by {
        if i < route.len() {
            assert(route[i].0 == step_target(graph, route, i - 1));
        }
    }
    assert forall|i: int| 0 <= i < longer.len() implies 0 <= (#[trigger] longer[i]).0 < graph.len()
        && 0 <= longer[i].1 < graph[longer[i].0]@.len() by {
        if i < route.len() {
            assert(longer[i] == route[i]);
        }
    }
}

/// Where every reached vertex is settled, no route from `start` is cheaper
/// than the cost found for its end.
proof fn lemma_no_cheaper_route(
    graph: Seq<Vec<(usize, usize)>>,
    dist: Seq<usize>,
    start: int,
    route: Seq<(int, int)>,
)
    requires
        is_weighted_graph(graph),
        dist.len() == graph.len(),
        0 <= start < graph.len(),
        dist[start] == 0,
        is_route(graph, start, route),
        forall|v: int| 0 <= v < graph.len() && dist[v] < usize::MAX ==> is_settled(graph, dist, v),
    ensures
        0 <= route_end(graph, start, route) < graph.len(),
        dist[route_end(graph, start, route)] <= route_cost(graph, route),
    decreases route.len(),
{
    if route.len() > 0 {
        let front = route.drop_last();
        let last = route[route.len() - 1];
        assert(0 <= last.0 < graph.len() && 0 <= last.1 < graph[last.0]@.len());
        assert(is_route(graph, start, front)) by {
            assert forall|i: int| 1 <= i < front.len() implies (#[trigger] front[i]).0
                == step_target(graph, front, i - 1) by {
                assert(route[i].0 == step_target(graph, route, i - 1));
            }
            assert forall|i: int| 0 <= i < front.len() implies 0 <= (#[trigger] front[i]).0
                < graph.len() && 0 <= front[i].1 < graph[front[i].0]@.len() by {
                assert(front[i] == route[i]);
            }
            if front.len() > 0 {
                assert(front[0] == route[0]);
            }
        }
        lemma_no_cheaper_route(graph, dist, start, front);
        let u = last.0;
        assert(route_end(graph, start, front) == u) by {
            if front.len() > 0 {
                assert(route[route.len() - 1].0 == step_target(graph, route, route.len() - 2));
            }
        }
        assert(graph[u]@[last.1].0 < graph.len());
        if dist[u] < usize::MAX {
            assert(is_settled(graph, dist, u));
        }
    }
}

/// The least cost of a route from `start` to every vertex; `usize::MAX`
/// for a vertex that no route reaches or none reaches below that cost.
pub fn dijkstra(graph: &[Vec<(usize, usize)>], start: usize) -> (dist: Vec<usize>)
    requires
        is_weighted_graph(graph@),
        start < graph@.len(),
    ensures
        dist@.len() == graph@.len(),
        forall|v: int|
            0 <= v < graph@.len() ==> is_least_route_cost(
                graph@,
                start as int,
                v,
                #[trigger] dist@[v] as int,
            ),
{
    let n = graph.len();
    let mut dist: Vec<usize> = Vec::new();
    while dist.len() < n
        invariant
            dist@.len() <= n,
            forall|v: int| 0 <= v < dist@.len() ==> dist@[v] == usize::MAX,
        decreases n - dist@.len(),
    {
        dist.push(usize::MAX);
    }
    let mut pq = NodeHeap::new();
    dist[start] = 0;
    pq.push(Node { vertex: start, cost: 0 });
    proof {
        broadcast use vstd::multiset::group_multiset_axioms;

        let empty = Seq::<(int, int)>::empty();
        assert(is_route(graph@, start as int, empty));
        assert(route_cost(graph@, empty) == 0);
        assert(pq@.count(Node { vertex: start, cost: 0 }) > 0);
    }
    while pq.len() > 0
        invariant
            is_weighted_graph(graph@),
            n == graph@.len(),
            start < n,
            dist@.len() == n,
            dist@[start as int] == 0,
            pq.wf(),
            is_sound(graph@, dist@, start as int),
            settled_or_waiting(graph@, dist@, pq@, -1),
            is_queue(pq@, dist@, n as int),
        decreases total(dist@), pq@.len(),
    {
        let ghost total_before = total(dist@);
        let ghost waiting_before = pq@;
        let node = pq.pop().unwrap();
        let Node { vertex, cost } = node;
        let ghost waiting = pq@;
        proof {
            broadcast use vstd::multiset::group_multiset_axioms;

            assert(waiting_before.count(node) > 0);
            assert forall|other: Node| other != node implies waiting.count(other)
                == waiting_before.count(other) by {}
            assert forall|other: Node| #[trigger] waiting.count(other) > 0 implies other.vertex < n
                && dist@[other.vertex as int] <= other.cost by {
                assert(waiting_before.count(other) > 0);
            }
            assert(waiting.len() < waiting_before.len());
        }
        if dist[vertex] < cost {
            proof {
                assert forall|v: int|
                    0 <= v < n && dist@[v] < usize::MAX && v != -1 implies #[trigger] is_settled(
                    graph@,
                    dist@,
                    v,
                ) || waiting.count(Node { vertex: v as usize, cost: dist@[v] }) > 0 by {
                    let known = Node { vertex: v as usize, cost: dist@[v] };
                    if !is_settled(graph@, dist@, v) {
                        assert(waiting_before.count(known) > 0);
                        assert(known != node);
                    }
                }
            }
            continue ;
        }
        let degree = graph[vertex].len();
        let mut e: usize = 0;
        proof {
            assert forall|v: int|
                0 <= v < n && dist@[v] < usize::MAX && v != vertex implies #[trigger] is_settled(
                graph@,
                dist@,
                v,
            ) || waiting.count(Node { vertex: v as usize, cost: dist@[v] }) > 0 by {
                let known = Node { vertex: v as usize, cost: dist@[v] };
                if !is_settled(graph@, dist@, v) {
                    assert(waiting_before.count(known) > 0);
                    assert(known != node);
                }
            }
        }
        while e < degree
            invariant
                is_weighted_graph(graph@),
                n == graph@.len(),
                start < n,
                vertex < n,
                dist@.len() == n,
                dist@[start as int] == 0,
                dist@[vertex as int] == cost,
                degree == graph@[vertex as int]@.len(),
                e <= degree,
                pq.wf(),
                is_sound(graph@, dist@, start as int),
                settled_or_waiting(graph@, dist@, pq@, vertex as int),
                is_queue(pq@, dist@, n as int),
                forall|d: int|
                    0 <= d < e ==> dist@[(#[trigger] graph@[vertex as int]@[d]).0 as int]
                        <= capped_sum(cost as int, graph@[vertex as int]@[d].1 as int),
                total(dist@) <= total_before,
                total(dist@) == total_before ==> pq@ == waiting,
            decreases degree - e,
        {
            let (next_vertex, edge_cost) = graph[vertex][e];
            assert(graph@[vertex as int]@[e as int].0 < n);
            let new_cost = cost.saturating_add(edge_cost);
            if new_cost < dist[next_vertex] {
                let ghost old_dist = dist@;
                let ghost old_queue = pq@;
                proof {
                    let route = choose|route: Seq<(int, int)>|
                        is_route(graph@, start as int, route) && route_end(
                            graph@,
                            start as int,
                            route,
                        ) == vertex && #[trigger] route_cost(graph@, route) == dist@[vertex as int];
                    lemma_route_push(graph@, start as int, route, e as int);
                    lemma_total_lowered(dist@, next_vertex as int, new_cost);
                }
                dist[next_vertex] = new_cost;
                pq.push(Node { vertex: next_vertex, cost: new_cost });
                proof {
                    broadcast use vstd::multiset::group_multiset_axioms;

                    let pushed = Node { vertex: next_vertex, cost: new_cost };
                    assert(pq@.count(pushed) > 0);
                    assert forall|other: Node| old_queue.count(other) > 0 implies pq@.count(other)
                        > 0 by {}
                    assert forall|other: Node| #[trigger] pq@.count(other) > 0 implies other.vertex
                        < n && dist@[other.vertex as int] <= other.cost by {
                        if other != pushed {
                            assert(old_queue.count(other) > 0);
                            assert(old_dist[other.vertex as int] <= other.cost);
                        }
                    }
                    assert forall|v: int|
                        0 <= v < n && dist@[v] < usize::MAX && v != vertex implies #[trigger] is_settled(
                        graph@,
                        dist@,
                        v,
                    ) || pq@.count(Node { vertex: v as usize, cost: dist@[v] }) > 0 by {
                        if v != next_vertex {
                            let known = Node { vertex: v as usize, cost: old_dist[v] };
                            if is_settled(graph@, old_dist, v) {
                                assert forall|d: int| 0 <= d < graph@[v]@.len() implies dist@[(
                                #[trigger] graph@[v]@[d]).0 as int] <= capped_sum(
                                    dist@[v] as int,
                                    graph@[v]@[d].1 as int,
                                ) by {
                                    assert(old_dist[graph@[v]@[d].0 as int] <= capped_sum(
                                        old_dist[v] as int,
                                        graph@[v]@[d].1 as int,
                                    ));
                                }
                            } else {
                                assert(old_queue.count(known) > 0);
                            }
                        }
                    }
                    assert forall|v: int|
                        0 <= v < n && #[trigger] dist@[v] < usize::MAX implies exists|
                        route: Seq<(int, int)>,
                    |
                        is_route(graph@, start as int, route) && route_end(
                            graph@,
                            start as int,
                            route,
                        ) == v && #[trigger] route_cost(graph@, route) == dist@[v] by {
                        if v != next_vertex {
                            assert(old_dist[v] < usize::MAX);
                        }
                    }
                    assert forall|d: int| 0 <= d < e + 1 implies dist@[(
                    #[trigger] graph@[vertex as int]@[d]).0 as int] <= capped_sum(
                        cost as int,
                        graph@[vertex as int]@[d].1 as int,
                    ) by {
                        if d < e {
                            assert(old_dist[graph@[vertex as int]@[d].0 as int] <= capped_sum(
                                cost as int,
                                graph@[vertex as int]@[d].1 as int,
                            ));
                        }
                    }
                }
            }
            e += 1;
        }
        proof {
            assert(is_settled(graph@, dist@, vertex as int));
        }
    }
    proof {
        assert forall|v: int| 0 <= v < n && dist@[v] < usize::MAX implies is_settled(
            graph@,
            dist@,
            v,
        ) by {
            assert(pq@.count(Node { vertex: v as usize, cost: dist@[v] }) == 0) by {
                broadcast use vstd::multiset::group_multiset_axioms;

                assert(pq@.len() == 0);
            }
        }
        assert forall|v: int| 0 <= v < n implies is_least_route_cost(
            graph@,
            start as int,
            v,
            #[trigger] dist@[v] as int,
        ) by {
            assert forall|route: Seq<(int, int)>|
                is_route(graph@, start as int, route) && route_end(graph@, start as int, route)
                    == v implies dist@[v] <= #[trigger] route_cost(graph@, route) by {
                lemma_no_cheaper_route(graph@, dist@, start as int, route);
            }
        }
    }
    dist
}

} // verus!
