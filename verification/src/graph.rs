//! Graphs as adjacency lists, and paths in them.

use vstd::prelude::*;

verus! {

/// Whether every neighbour listed in `graph` is a vertex of `graph`.
pub open spec fn is_graph(graph: Seq<Vec<usize>>) -> bool {
    forall|u: int, e: int|
        0 <= u < graph.len() && 0 <= e < graph[u]@.len() ==> #[trigger] graph[u]@[e] < graph.len()
}

/// Whether `graph` has an edge from `u` to `w`.
pub open spec fn is_edge(graph: Seq<Vec<usize>>, u: int, w: int) -> bool {
    0 <= u < graph.len() && exists|e: int| 0 <= e < graph[u]@.len() && #[trigger] graph[u]@[e] == w
}

/// Whether `path` is a walk in `graph`: a vertex, followed by vertices
/// each of which is reached over an edge from the one before.
pub open spec fn is_path(graph: Seq<Vec<usize>>, path: Seq<int>) -> bool {
    &&& path.len() >= 1
    &&& forall|i: int| 0 <= i < path.len() ==> 0 <= #[trigger] path[i] < graph.len()
    &&& forall|i: int| 1 <= i < path.len() ==> is_edge(graph, path[i - 1], #[trigger] path[i])
}

/// Whether `path` leads from `from` to `to`.
pub open spec fn connects(path: Seq<int>, from: int, to: int) -> bool {
    path.len() >= 1 && path[0] == from && path.last() == to
}

/// Whether some walk of `steps` edges leads from `from` to `to`.
pub open spec fn reachable_in(graph: Seq<Vec<usize>>, from: int, to: int, steps: int) -> bool {
    exists|path: Seq<int>| #[trigger]
        is_path(graph, path) && connects(path, from, to) && path.len() == steps + 1
}

/// Whether `d` is the distance from `from` to `to`: the least number of
/// edges of a walk between them.
pub open spec fn is_distance(graph: Seq<Vec<usize>>, from: int, to: int, d: int) -> bool {
    &&& reachable_in(graph, from, to, d)
    &&& forall|fewer: int| 0 <= fewer < d ==> !reachable_in(graph, from, to, fewer)
}

/// Whether no walk at all leads from `from` to `to`.
pub open spec fn is_unreachable(graph: Seq<Vec<usize>>, from: int, to: int) -> bool {
    forall|steps: int| !reachable_in(graph, from, to, steps)
}

/// A walk continued over one more edge is a walk.
pub proof fn lemma_path_push(graph: Seq<Vec<usize>>, path: Seq<int>, x: int)
    requires
        is_path(graph, path),
        is_edge(graph, path.last(), x),
        0 <= x < graph.len(),
    ensures
        is_path(graph, path.push(x)),
{
    let longer = path.push(x);
    assert forall|i: int| 1 <= i < longer.len() implies is_edge(
        graph,
        longer[i - 1],
        #[trigger] longer[i],
    ) by {
        if i < path.len() {
            assert(is_edge(graph, path[i - 1], path[i]));
        }
    }
}

} // verus!
