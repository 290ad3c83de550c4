//! A centroid of a weighted tree: a vertex whose removal leaves no part
//! heavier than half of the whole.

use vstd::prelude::*;

verus! {

/// A tree hung up by its vertex 0: for every vertex its parent and its
/// depth below the root. The root has no parent; the number of vertices
/// stands in its place.
pub struct Rooting {
    pub parent: Seq<int>,
    pub depth: Seq<int>,
}

/// Whether `c` is listed among the neighbours of `v`.
pub open spec fn lists(graph: Seq<Vec<usize>>, v: int, c: int) -> bool {
    exists|e: int| 0 <= e < graph[v]@.len() && #[trigger] graph[v]@[e] == c
}

/// Whether `graph` is a tree and `r` hangs it up by the vertex 0: every
/// other vertex is listed once among the neighbours of its parent, and
/// every listed neighbour of a vertex is its parent or one of its children.
pub open spec fn is_rooted_tree(graph: Seq<Vec<usize>>, r: Rooting) -> bool {
    let n = graph.len() as int;
    &&& n >= 1
    &&& r.parent.len() == n
    &&& r.depth.len() == n
    &&& r.parent[0] == n
    &&& r.depth[0] == 0
    &&& forall|v: int| 0 <= v < n ==> 0 <= #[trigger] r.depth[v] < n
    &&& forall|v: int|
        1 <= v < n ==> 0 <= #[trigger] r.parent[v] < n && r.depth[v] == r.depth[r.parent[v]] + 1
    &&& forall|v: int, e: int|
        0 <= v < n && 0 <= e < graph[v]@.len() ==> (#[trigger] graph[v]@[e]) < n && (graph[v]@[e]
            == r.parent[v] || r.parent[graph[v]@[e] as int] == v)
    &&& forall|v: int| 0 <= v < n ==> (#[trigger] graph[v])@.no_duplicates()
    &&& forall|c: int| 1 <= c < n ==> #[trigger] lists(graph, r.parent[c], c)
}

/// Whether `graph` is a tree, hung up by its vertex 0 in some way.
pub open spec fn is_tree(graph: Seq<Vec<usize>>) -> bool {
    exists|r: Rooting| is_rooted_tree(graph, r)
}

/// Whether `u` lies in the subtree of `v`: it is `v` or a descendant of it.
pub open spec fn in_subtree(r: Rooting, v: int, u: int) -> bool
    decreases r.depth[u],
{
    if u == v {
        true
    } else if 0 < u < r.parent.len() && r.depth[v] < r.depth[u] && 0 <= r.parent[u]
        < r.parent.len() && 0 <= r.depth[r.parent[u]] < r.depth[u] {
        in_subtree(r, v, r.parent[u])
    } else {
        false
    }
}

/// The sum of the weights of the first `upto` vertices that `mask` selects.
pub open spec fn masked_sum(weight: Seq<usize>, mask: spec_fn(int) -> bool, upto: int) -> int
    decreases upto,
{
    if upto <= 0 {
        0
    } else {
        masked_sum(weight, mask, upto - 1) + if mask(upto - 1) {
            weight[upto - 1] as int
        } else {
            0
        }
    }
}

/// The sum of all weights.
pub open spec fn total_weight(weight: Seq<usize>) -> int {
    masked_sum(weight, |u: int| true, weight.len() as int)
}

/// The weight of the subtree of `v`: the sum of the weights of `v` and of
/// all its descendants.
pub open spec fn subtree_weight_of(weight: Seq<usize>, r: Rooting, v: int) -> int {
    masked_sum(weight, |u: int| in_subtree(r, v, u), weight.len() as int)
}

/// Masks that select the same vertices give the same sum.
proof fn lemma_masked_sum_same(
    weight: Seq<usize>,
    a: spec_fn(int) -> bool,
    b: spec_fn(int) -> bool,
    upto: int,
)
    requires
        forall|u: int| 0 <= u < upto ==> #[trigger] a(u) == #[trigger] b(u),
    ensures
        masked_sum(weight, a, upto) == masked_sum(weight, b, upto),
    decreases upto,
{
    if upto > 0 {
        lemma_masked_sum_same(weight, a, b, upto - 1);
    }
}

/// A mask that selects no more than another gives no greater sum, and no
/// sum is negative.
proof fn lemma_masked_sum_grows(
    weight: Seq<usize>,
    a: spec_fn(int) -> bool,
    b: spec_fn(int) -> bool,
    upto: int,
)
    requires
        forall|u: int| 0 <= u < upto && #[trigger] a(u) ==> b(u),
    ensures
        0 <= masked_sum(weight, a, upto) <= masked_sum(weight, b, upto),
    decreases upto,
{
    if upto > 0 {
        lemma_masked_sum_grows(weight, a, b, upto - 1);
    }
}

/// The sum over two masks that exclude each other is the sum of their sums.
proof fn lemma_masked_sum_split(
    weight: Seq<usize>,
    a: spec_fn(int) -> bool,
    b: spec_fn(int) -> bool,
    both: spec_fn(int) -> bool,
    upto: int,
)
    requires
        forall|u: int| 0 <= u < upto ==> !(#[trigger] a(u) && b(u)),
        forall|u: int| 0 <= u < upto ==> #[trigger] both(u) == (a(u) || b(u)),
    ensures
        masked_sum(weight, both, upto) == masked_sum(weight, a, upto) + masked_sum(weight, b, upto),
    decreases upto,
{
    if upto > 0 {
        lemma_masked_sum_split(weight, a, b, both, upto - 1);
    }
}

/// The sum over a mask that selects the single vertex `v` is its weight.
proof fn lemma_masked_sum_single(weight: Seq<usize>, mask: spec_fn(int) -> bool, v: int, upto: int)
    requires
        forall|u: int| 0 <= u < upto ==> #[trigger] mask(u) == (u == v),
    ensures
        masked_sum(weight, mask, upto) == (if 0 <= v < upto {
            weight[v] as int
        } else {
            0
        }),
    decreases upto,
{
    if upto > 0 {
        lemma_masked_sum_single(weight, mask, v, upto - 1);
    }
}

/// A vertex of the subtree of `v` is a vertex, and not above `v`.
proof fn lemma_in_subtree_below(graph: Seq<Vec<usize>>, r: Rooting, v: int, u: int)
    requires
        is_rooted_tree(graph, r),
        0 <= v < graph.len(),
        in_subtree(r, v, u),
    ensures
        0 <= u < graph.len(),
        r.depth[v] <= r.depth[u],
        r.depth[v] == r.depth[u] ==> u == v,
{
}

/// What lies in the subtree of a vertex lies in the subtree of its parent.
proof fn lemma_in_subtree_of_parent(graph: Seq<Vec<usize>>, r: Rooting, c: int, u: int)
    requires
        is_rooted_tree(graph, r),
        1 <= c < graph.len(),
        in_subtree(r, c, u),
    ensures
        in_subtree(r, r.parent[c], u),
    decreases r.depth[u],
{
    let v = r.parent[c];
    if u == c {
        assert(in_subtree(r, v, v));
    } else {
        assert(0 < u < graph.len() && r.depth[c] < r.depth[u]);
        lemma_in_subtree_of_parent(graph, r, c, r.parent[u]);
    }
}

/// The subtree of the root is the whole tree.
proof fn lemma_root_subtree(graph: Seq<Vec<usize>>, r: Rooting, u: int)
    requires
        is_rooted_tree(graph, r),
        0 <= u < graph.len(),
    ensures
        in_subtree(r, 0, u),
    decreases r.depth[u],
{
    if u != 0 {
        let p = r.parent[u];
        assert(0 <= p < graph.len() && r.depth[u] == r.depth[p] + 1);
        assert(0 <= r.depth[p]);
        lemma_root_subtree(graph, r, p);
    }
}

/// Two vertices of the same depth whose subtrees share a vertex are one.
proof fn lemma_subtrees_apart(graph: Seq<Vec<usize>>, r: Rooting, a: int, b: int, u: int)
    requires
        is_rooted_tree(graph, r),
        0 <= a < graph.len(),
        0 <= b < graph.len(),
        r.depth[a] == r.depth[b],
        in_subtree(r, a, u),
        in_subtree(r, b, u),
    ensures
        a == b,
    decreases r.depth[u],
{
    if u != a && u != b {
        lemma_subtrees_apart(graph, r, a, b, r.parent[u]);
    }
}

/// A vertex of the subtree of `v` other than `v` lies in the subtree of a
/// child of `v`.
proof fn lemma_in_subtree_of_child(graph: Seq<Vec<usize>>, r: Rooting, v: int, u: int) -> (c: int)
    requires
        is_rooted_tree(graph, r),
        0 <= v < graph.len(),
        in_subtree(r, v, u),
        u != v,
    ensures
        1 <= c < graph.len(),
        r.parent[c] == v,
        in_subtree(r, c, u),
    decreases r.depth[u],
{
    let p = r.parent[u];
    assert(0 < u < graph.len());
    if p == v {
        assert(in_subtree(r, u, u));
        u
    } else {
        let c = lemma_in_subtree_of_child(graph, r, v, p);
        lemma_in_subtree_below(graph, r, c, p);
        assert(in_subtree(r, c, u));
        c
    }
}

/// Whether the `e`-th listed neighbour of `v` is a child of `v`.
pub open spec fn is_child_entry(graph: Seq<Vec<usize>>, r: Rooting, v: int, e: int) -> bool {
    0 <= e < graph[v]@.len() && graph[v]@[e] != r.parent[v]
}

/// The sum of the subtree weights of the children of `v` among its first
/// `upto` listed neighbours.
pub open spec fn children_weight(
    graph: Seq<Vec<usize>>,
    weight: Seq<usize>,
    r: Rooting,
    v: int,
    upto: int,
) -> int
    decreases upto,
{
    if upto <= 0 {
        0
    } else {
        children_weight(graph, weight, r, v, upto - 1) + if is_child_entry(graph, r, v, upto - 1) {
            subtree_weight_of(weight, r, graph[v]@[upto - 1] as int)
        } else {
            0
        }
    }
}

/// The vertices in the subtrees of the children of `v` among its first
/// `upto` listed neighbours.
spec fn below_children(graph: Seq<Vec<usize>>, r: Rooting, v: int, upto: int) -> spec_fn(int) -> bool {
    |u: int|
        exists|e: int|
            0 <= e < upto && #[trigger] is_child_entry(graph, r, v, e) && in_subtree(
                r,
                graph[v]@[e] as int,
                u,
            )
}

/// The vertices in the subtree of the `e`-th listed neighbour of `v`, if
/// that is a child.
spec fn below_entry(graph: Seq<Vec<usize>>, r: Rooting, v: int, e: int) -> spec_fn(int) -> bool {
    |u: int| is_child_entry(graph, r, v, e) && in_subtree(r, graph[v]@[e] as int, u)
}

/// The weights of the subtrees of children add up to the weight of what
/// lies below them.
proof fn lemma_children_weight(
    graph: Seq<Vec<usize>>,
    weight: Seq<usize>,
    r: Rooting,
    v: int,
    upto: int,
)
    requires
        is_rooted_tree(graph, r),
        weight.len() == graph.len(),
        0 <= v < graph.len(),
        0 <= upto <= graph[v]@.len(),
    ensures
        children_weight(graph, weight, r, v, upto) == masked_sum(
            weight,
            below_children(graph, r, v, upto),
            weight.len() as int,
        ),
        0 <= children_weight(graph, weight, r, v, upto),
    decreases upto,
{
    let n = weight.len() as int;
    let all = below_children(graph, r, v, upto);
    if upto == 0 {
        lemma_masked_sum_single(weight, all, -1, n);
    } else {
        let k = upto - 1;
        let c = graph[v]@[k] as int;
        let before = below_children(graph, r, v, k);
        let last = below_entry(graph, r, v, k);
        lemma_children_weight(graph, weight, r, v, k);
        assert forall|u: int| 0 <= u < n implies !(#[trigger] before(u) && last(u)) by {
            if before(u) && last(u) {
                let e = choose|e: int|
                    0 <= e < k && #[trigger] is_child_entry(graph, r, v, e) && in_subtree(
                        r,
                        graph[v]@[e] as int,
                        u,
                    );
                let d = graph[v]@[e] as int;
                assert(graph[v]@[e] < n && graph[v]@[k] < n);
                assert(r.parent[d] == v && r.parent[c] == v);
                lemma_subtrees_apart(graph, r, d, c, u);
                assert(graph[v]@[e] == graph[v]@[k]);
            }
        }
        assert forall|u: int| 0 <= u < n implies #[trigger] all(u) == (before(u) || last(u)) by {
            if before(u) {
                let e = choose|e: int|
                    0 <= e < k && #[trigger] is_child_entry(graph, r, v, e) && in_subtree(
                        r,
                        graph[v]@[e] as int,
                        u,
                    );
                assert(is_child_entry(graph, r, v, e));
            }
            if last(u) {
                assert(is_child_entry(graph, r, v, k));
            }
            if all(u) {
                let e = choose|e: int|
                    0 <= e < upto && #[trigger] is_child_entry(graph, r, v, e) && in_subtree(
                        r,
                        graph[v]@[e] as int,
                        u,
                    );
                if e < k {
                    assert(before(u));
                }
            }
        }
        lemma_masked_sum_split(weight, before, last, all, n);
        if is_child_entry(graph, r, v, k) {
            lemma_masked_sum_same(weight, last, |u: int| in_subtree(r, c, u), n);
        } else {
            lemma_masked_sum_single(weight, last, -1, n);
        }
        lemma_masked_sum_grows(weight, last, last, n);
    }
}

/// The weight of a subtree is the weight of its root and of the subtrees
/// of the children of the root.
pub proof fn lemma_subtree_weight(graph: Seq<Vec<usize>>, weight: Seq<usize>, r: Rooting, v: int)
    requires
        is_rooted_tree(graph, r),
        weight.len() == graph.len(),
        0 <= v < graph.len(),
    ensures
        subtree_weight_of(weight, r, v) == weight[v] + children_weight(
            graph,
            weight,
            r,
            v,
            graph[v]@.len() as int,
        ),
{
    let n = weight.len() as int;
    let len = graph[v]@.len() as int;
    let below = below_children(graph, r, v, len);
    let top = |u: int| u == v;
    let whole = |u: int| in_subtree(r, v, u);
    lemma_children_weight(graph, weight, r, v, len);
    assert forall|u: int| 0 <= u < n implies !(#[trigger] top(u) && below(u)) by {
        lemma_subtree_members(graph, r, v, u);
    }
    assert forall|u: int| 0 <= u < n implies #[trigger] whole(u) == (top(u) || below(u)) by {
        lemma_subtree_members(graph, r, v, u);
    }
    lemma_masked_sum_split(weight, top, below, whole, n);
    lemma_masked_sum_single(weight, top, v, n);
}

/// The subtree of `v` consists of `v` and of the subtrees of its children.
proof fn lemma_subtree_members(graph: Seq<Vec<usize>>, r: Rooting, v: int, u: int)
    requires
        is_rooted_tree(graph, r),
        0 <= v < graph.len(),
        0 <= u < graph.len(),
    ensures
        in_subtree(r, v, u) == (u == v || below_children(graph, r, v, graph[v]@.len() as int)(u)),
        !below_children(graph, r, v, graph[v]@.len() as int)(v),
{
    let n = graph.len() as int;
    let len = graph[v]@.len() as int;
    let below = below_children(graph, r, v, len);
    if below(v) {
        let e = choose|e: int|
            0 <= e < len && #[trigger] is_child_entry(graph, r, v, e) && in_subtree(
                r,
                graph[v]@[e] as int,
                v,
            );
        let c = graph[v]@[e] as int;
        assert(graph[v]@[e] < n);
        assert(r.parent[c] == v);
        lemma_in_subtree_below(graph, r, c, v);
    }
    if below(u) {
        let e = choose|e: int|
            0 <= e < len && #[trigger] is_child_entry(graph, r, v, e) && in_subtree(
                r,
                graph[v]@[e] as int,
                u,
            );
        let c = graph[v]@[e] as int;
        assert(graph[v]@[e] < n);
        assert(r.parent[c] == v);
        lemma_in_subtree_of_parent(graph, r, c, u);
    }
    if in_subtree(r, v, u) && u != v {
        let c = lemma_in_subtree_of_child(graph, r, v, u);
        assert(lists(graph, r.parent[c], c));
        let e = choose|e: int| 0 <= e < graph[v]@.len() && #[trigger] graph[v]@[e] == c;
        assert(c != r.parent[v]) by {
            if v != 0 {
                assert(r.depth[v] == r.depth[r.parent[v]] + 1);
            }
        }
        assert(is_child_entry(graph, r, v, e));
    }
}

/// The children among fewer listed neighbours weigh no more.
proof fn lemma_children_weight_grows(
    graph: Seq<Vec<usize>>,
    weight: Seq<usize>,
    r: Rooting,
    v: int,
    fewer: int,
    upto: int,
)
    requires
        is_rooted_tree(graph, r),
        weight.len() == graph.len(),
        0 <= v < graph.len(),
        0 <= fewer <= upto <= graph[v]@.len(),
    ensures
        0 <= children_weight(graph, weight, r, v, fewer) <= children_weight(
            graph,
            weight,
            r,
            v,
            upto,
        ),
    decreases upto - fewer,
{
    lemma_children_weight(graph, weight, r, v, fewer);
    if fewer < upto {
        lemma_children_weight_grows(graph, weight, r, v, fewer, upto - 1);
        if is_child_entry(graph, r, v, upto - 1) {
            let c = graph[v]@[upto - 1] as int;
            assert(graph[v]@[upto - 1] < graph.len());
            lemma_subtree_weight_bounds(graph, weight, r, c);
        }
    }
}

/// The subtree of the root weighs as much as the whole tree, and no
/// subtree weighs more.
pub proof fn lemma_subtree_weight_bounds(
    graph: Seq<Vec<usize>>,
    weight: Seq<usize>,
    r: Rooting,
    v: int,
)
    requires
        is_rooted_tree(graph, r),
        weight.len() == graph.len(),
        0 <= v < graph.len(),
    ensures
        subtree_weight_of(weight, r, 0) == total_weight(weight),
        0 <= subtree_weight_of(weight, r, v) <= total_weight(weight),
{
    let n = weight.len() as int;
    assert forall|u: int| 0 <= u < n implies #[trigger] in_subtree(r, 0, u) by {
        lemma_root_subtree(graph, r, u);
    }
    lemma_masked_sum_same(weight, |u: int| in_subtree(r, 0, u), |u: int| true, n);
    lemma_masked_sum_grows(weight, |u: int| in_subtree(r, v, u), |u: int| true, n);
}

/// Sets the entry of every vertex in the subtree of `v` to the weight of
/// its own subtree, and returns the weight of the subtree of `v`.
fn subtree_dfs(
    graph: &Vec<Vec<usize>>,
    weight: &Vec<usize>,
    subtree_weight: &mut Vec<usize>,
    v: usize,
    par: usize,
    Ghost(r): Ghost<Rooting>,
) -> (sum: usize)
    requires
        is_rooted_tree(graph@, r),
        weight@.len() == graph@.len(),
        old(subtree_weight)@.len() == graph@.len(),
        v < graph@.len(),
        par == r.parent[v as int],
        total_weight(weight@) <= usize::MAX,
    ensures
        final(subtree_weight)@.len() == graph@.len(),
        sum == subtree_weight_of(weight@, r, v as int),
        forall|u: int|
            0 <= u < graph@.len() ==> #[trigger] final(subtree_weight)@[u] == (if in_subtree(
                r,
                v as int,
                u,
            ) {
                subtree_weight_of(weight@, r, u)
            } else {
                old(subtree_weight)@[u] as int
            }),
    decreases graph@.len() - r.depth[v as int],
{
    let ghost before = subtree_weight@;
    let ghost n = graph@.len() as int;
    subtree_weight[v] = weight[v];
    let degree = graph[v].len();
    let mut e: usize = 0;
    while e < degree
        invariant
            is_rooted_tree(graph@, r),
            n == graph@.len(),
            weight@.len() == n,
            subtree_weight@.len() == n,
            before.len() == n,
            v < n,
            par == r.parent[v as int],
            total_weight(weight@) <= usize::MAX,
            degree == graph@[v as int]@.len(),
            e <= degree,
            subtree_weight@[v as int] == weight@[v as int] + children_weight(
                graph@,
                weight@,
                r,
                v as int,
                e as int,
            ),
            forall|u: int|
                0 <= u < n && u != v ==> #[trigger] subtree_weight@[u] == (if below_children(
                    graph@,
                    r,
                    v as int,
                    e as int,
                )(u) {
                    subtree_weight_of(weight@, r, u)
                } else {
                    before[u] as int
                }),
        decreases degree - e,
    {
        let next_v = graph[v][e];
        let ghost now = subtree_weight@;
        assert(graph@[v as int]@[e as int] < n);
        if next_v != par {
            assert(is_child_entry(graph@, r, v as int, e as int));
            assert(r.parent[next_v as int] == v);
            let child_sum = subtree_dfs(graph, weight, subtree_weight, next_v, v, Ghost(r));
            proof {
                if in_subtree(r, next_v as int, v as int) {
                    lemma_in_subtree_below(graph@, r, next_v as int, v as int);
                }
                lemma_children_weight_grows(graph@, weight@, r, v as int, e + 1, degree as int);
                lemma_subtree_weight(graph@, weight@, r, v as int);
                lemma_subtree_weight_bounds(graph@, weight@, r, v as int);
                assert(subtree_weight@[v as int] == now[v as int]);
            }
            subtree_weight[v] += child_sum;
            proof {
                assert forall|u: int| 0 <= u < n && u != v implies #[trigger] subtree_weight@[u] == (if below_children(
                    graph@,
                    r,
                    v as int,
                    e + 1,
                )(u) {
                    subtree_weight_of(weight@, r, u)
                } else {
                    before[u] as int
                }) by {
                    lemma_below_children_step(graph@, r, v as int, e as int, u);
                }
            }
        } else {
            proof {
                assert(!is_child_entry(graph@, r, v as int, e as int));
                assert forall|u: int| 0 <= u < n && u != v implies #[trigger] subtree_weight@[u] == (if below_children(
                    graph@,
                    r,
                    v as int,
                    e + 1,
                )(u) {
                    subtree_weight_of(weight@, r, u)
                } else {
                    before[u] as int
                }) by {
                    lemma_below_children_step(graph@, r, v as int, e as int, u);
                }
            }
        }
        e += 1;
    }
    proof {
        lemma_subtree_weight(graph@, weight@, r, v as int);
        assert forall|u: int| 0 <= u < n implies #[trigger] subtree_weight@[u] == (if in_subtree(
            r,
            v as int,
            u,
        ) {
            subtree_weight_of(weight@, r, u)
        } else {
            before[u] as int
        }) by {
            lemma_subtree_members(graph@, r, v as int, u);
        }
    }
    subtree_weight[v]
}

/// One more listed neighbour adds the subtree of that neighbour, if it is
/// a child, to what lies below the children.
proof fn lemma_below_children_step(graph: Seq<Vec<usize>>, r: Rooting, v: int, k: int, u: int)
    requires
        0 <= k,
    ensures
        below_children(graph, r, v, k + 1)(u) == (below_children(graph, r, v, k)(u) || (
        is_child_entry(graph, r, v, k) && in_subtree(r, graph[v]@[k] as int, u))),
{
    let before = below_children(graph, r, v, k);
    let after = below_children(graph, r, v, k + 1);
    if before(u) {
        let e = choose|e: int|
            0 <= e < k && #[trigger] is_child_entry(graph, r, v, e) && in_subtree(
                r,
                graph[v]@[e] as int,
                u,
            );
        assert(is_child_entry(graph, r, v, e));
    }
    if is_child_entry(graph, r, v, k) && in_subtree(r, graph[v]@[k] as int, u) {
        assert(after(u));
    }
    if after(u) {
        let e = choose|e: int|
            0 <= e < k + 1 && #[trigger] is_child_entry(graph, r, v, e) && in_subtree(
                r,
                graph[v]@[e] as int,
                u,
            );
        if e < k {
            assert(before(u));
        }
    }
}

/// Whether `v` is a centroid: with `v` taken out, neither the subtree of
/// a child of `v` nor the rest of the tree above `v` weighs more than half
/// of the whole, the half rounded down.
pub open spec fn is_centroid(graph: Seq<Vec<usize>>, weight: Seq<usize>, r: Rooting, v: int) -> bool {
    let half = total_weight(weight) / 2;
    &&& forall|e: int| #[trigger]
        is_child_entry(graph, r, v, e) ==> subtree_weight_of(weight, r, graph[v]@[e] as int)
            <= half
    &&& total_weight(weight) - subtree_weight_of(weight, r, v) <= half
}

/// The first centroid found below the children of `v` among its first
/// `upto` listed neighbours, the neighbours taken in their order; the
/// number of vertices if there is none.
pub open spec fn centroid_below(
    graph: Seq<Vec<usize>>,
    weight: Seq<usize>,
    r: Rooting,
    v: int,
    upto: int,
) -> int
    decreases graph.len() - r.depth[v], upto,
{
    if upto <= 0 {
        graph.len() as int
    } else {
        let earlier = centroid_below(graph, weight, r, v, upto - 1);
        let c = graph[v]@[upto - 1] as int;
        if earlier != graph.len() {
            earlier
        } else if is_child_entry(graph, r, v, upto - 1) && r.depth[v] < r.depth[c] < graph.len() {
            first_centroid(graph, weight, r, c)
        } else {
            graph.len() as int
        }
    }
}

/// The first centroid in the subtree of `v`, where the subtrees of the
/// children come in the order in which the children are listed, and `v`
/// comes last; the number of vertices if the subtree has no centroid.
pub open spec fn first_centroid(graph: Seq<Vec<usize>>, weight: Seq<usize>, r: Rooting, v: int) -> int
    decreases graph.len() - r.depth[v], graph[v]@.len() + 1,
{
    let below = centroid_below(graph, weight, r, v, graph[v]@.len() as int);
    if below != graph.len() {
        below
    } else if is_centroid(graph, weight, r, v) {
        v
    } else {
        graph.len() as int
    }
}

/// What is found in a subtree is a centroid, and something is found if
/// the rest of the tree above the subtree weighs at most half of the whole.
pub proof fn lemma_first_centroid(graph: Seq<Vec<usize>>, weight: Seq<usize>, r: Rooting, v: int)
    requires
        is_rooted_tree(graph, r),
        weight.len() == graph.len(),
        0 <= v < graph.len(),
    ensures
        first_centroid(graph, weight, r, v) != graph.len() ==> 0 <= first_centroid(
            graph,
            weight,
            r,
            v,
        ) < graph.len() && is_centroid(graph, weight, r, first_centroid(graph, weight, r, v)),
        total_weight(weight) - subtree_weight_of(weight, r, v) <= total_weight(weight) / 2
            ==> first_centroid(graph, weight, r, v) != graph.len(),
    decreases graph.len() - r.depth[v], graph[v]@.len() + 1,
{
    let len = graph[v]@.len() as int;
    lemma_centroid_below(graph, weight, r, v, len);
    if centroid_below(graph, weight, r, v, len) == graph.len() {
        if total_weight(weight) - subtree_weight_of(weight, r, v) <= total_weight(weight) / 2 {
            assert(is_centroid(graph, weight, r, v));
        }
    }
}

/// [`lemma_first_centroid`] for the children among the first `upto` listed
/// neighbours of `v`: what is found is a centroid, and where nothing is
/// found, no subtree of these children weighs more than half of the whole.
proof fn lemma_centroid_below(
    graph: Seq<Vec<usize>>,
    weight: Seq<usize>,
    r: Rooting,
    v: int,
    upto: int,
)
    requires
        is_rooted_tree(graph, r),
        weight.len() == graph.len(),
        0 <= v < graph.len(),
        0 <= upto <= graph[v]@.len(),
    ensures
        centroid_below(graph, weight, r, v, upto) != graph.len() ==> 0 <= centroid_below(
            graph,
            weight,
            r,
            v,
            upto,
        ) < graph.len() && is_centroid(graph, weight, r, centroid_below(graph, weight, r, v, upto)),
        centroid_below(graph, weight, r, v, upto) == graph.len() ==> forall|e: int|
            0 <= e < upto && #[trigger] is_child_entry(graph, r, v, e) ==> subtree_weight_of(
                weight,
                r,
                graph[v]@[e] as int,
            ) <= total_weight(weight) / 2,
    decreases graph.len() - r.depth[v], upto,
{
    if upto > 0 {
        let k = upto - 1;
        lemma_centroid_below(graph, weight, r, v, k);
        if centroid_below(graph, weight, r, v, k) == graph.len() && is_child_entry(graph, r, v, k) {
            let c = graph[v]@[k] as int;
            assert(graph[v]@[k] < graph.len());
            assert(r.parent[c] == v);
            assert(r.depth[c] == r.depth[v] + 1);
            lemma_first_centroid(graph, weight, r, c);
            lemma_subtree_weight_bounds(graph, weight, r, c);
        }
    }
}

/// A tree has a centroid, and the search from the root finds one.
pub proof fn lemma_centroid_exists(graph: Seq<Vec<usize>>, weight: Seq<usize>, r: Rooting)
    requires
        is_rooted_tree(graph, r),
        weight.len() == graph.len(),
    ensures
        0 <= first_centroid(graph, weight, r, 0) < graph.len(),
        is_centroid(graph, weight, r, first_centroid(graph, weight, r, 0)),
{
    lemma_subtree_weight_bounds(graph, weight, r, 0);
    lemma_first_centroid(graph, weight, r, 0);
}

/// A tree can be hung up by its vertex 0 in one way only.
pub proof fn lemma_rooting_unique(graph: Seq<Vec<usize>>, r: Rooting, s: Rooting)
    requires
        is_rooted_tree(graph, r),
        is_rooted_tree(graph, s),
    ensures
        r == s,
{
    assert forall|u: int| 0 <= u < graph.len() implies r.parent[u] == s.parent[u] && r.depth[u]
        == s.depth[u] by {
        lemma_same_parent(graph, r, s, u);
    }
    assert(r.parent =~= s.parent);
    assert(r.depth =~= s.depth);
}

/// [`lemma_rooting_unique`] for one vertex.
proof fn lemma_same_parent(graph: Seq<Vec<usize>>, r: Rooting, s: Rooting, u: int)
    requires
        is_rooted_tree(graph, r),
        is_rooted_tree(graph, s),
        0 <= u < graph.len(),
    ensures
        r.parent[u] == s.parent[u],
        r.depth[u] == s.depth[u],
    decreases r.depth[u],
{
    if u != 0 {
        let a = r.parent[u];
        assert(0 <= a < graph.len() && r.depth[u] == r.depth[a] + 1);
        assert(0 <= r.depth[a]);
        lemma_same_parent(graph, r, s, a);
        assert(lists(graph, r.parent[u], u));
        let e = choose|e: int| 0 <= e < graph[a]@.len() && #[trigger] graph[a]@[e] == u;
        // Listed with `a`, the vertex `u` is the parent of `a` or a child of `a`, also for `s`.
        assert(graph[a]@[e] == s.parent[a] || s.parent[graph[a]@[e] as int] == a);
        if u == s.parent[a] {
            // Then `a` would be a child of `u` as well as its parent.
            assert(a != 0);
            assert(r.depth[a] == r.depth[r.parent[a]] + 1);
        }
        assert(s.depth[u] == s.depth[s.parent[u]] + 1);
    }
}

/// The first centroid in the subtree of `v`, in the order in which the
/// children are listed, or `n` if the subtree has none.
fn centroid_dfs(
    n: usize,
    graph: &Vec<Vec<usize>>,
    weight_sum: usize,
    subtree_weight: &Vec<usize>,
    v: usize,
    par: usize,
    Ghost(r): Ghost<Rooting>,
    Ghost(weight): Ghost<Seq<usize>>,
) -> (found: usize)
    requires
        is_rooted_tree(graph@, r),
        n == graph@.len(),
        weight.len() == n,
        subtree_weight@.len() == n,
        v < n,
        par == r.parent[v as int],
        weight_sum == total_weight(weight),
        forall|u: int| 0 <= u < n ==> #[trigger] subtree_weight@[u] == subtree_weight_of(weight, r, u),
    ensures
        found == first_centroid(graph@, weight, r, v as int),
    decreases graph@.len() - r.depth[v as int],
{
    let mut is_balanced = true;
    let degree = graph[v].len();
    let mut e: usize = 0;
    while e < degree
        invariant
            is_rooted_tree(graph@, r),
            n == graph@.len(),
            weight.len() == n,
            subtree_weight@.len() == n,
            v < n,
            par == r.parent[v as int],
            weight_sum == total_weight(weight),
            forall|u: int|
                0 <= u < n ==> #[trigger] subtree_weight@[u] == subtree_weight_of(weight, r, u),
            degree == graph@[v as int]@.len(),
            e <= degree,
            centroid_below(graph@, weight, r, v as int, e as int) == n,
            is_balanced == (forall|d: int|
                0 <= d < e && #[trigger] is_child_entry(graph@, r, v as int, d) ==> subtree_weight_of(
                    weight,
                    r,
                    graph@[v as int]@[d] as int,
                ) <= weight_sum / 2),
        decreases degree - e,
    {
        let next_v = graph[v][e];
        assert(graph@[v as int]@[e as int] < n);
        if next_v != par {
            assert(is_child_entry(graph@, r, v as int, e as int));
            assert(r.parent[next_v as int] == v);
            assert(r.depth[next_v as int] == r.depth[v as int] + 1);
            let res = centroid_dfs(
                n,
                graph,
                weight_sum,
                subtree_weight,
                next_v,
                v,
                Ghost(r),
                Ghost(weight),
            );
            if res != n {
                proof {
                    lemma_centroid_below_found(graph@, weight, r, v as int, e + 1, degree as int);
                }
                return res;
            }
            if subtree_weight[next_v] > weight_sum / 2 {
                is_balanced = false;
            }
        } else {
            assert(!is_child_entry(graph@, r, v as int, e as int));
        }
        e += 1;
    }
    proof {
        lemma_subtree_weight_bounds(graph@, weight, r, v as int);
        assert forall|d: int| #[trigger]
            is_child_entry(graph@, r, v as int, d) implies 0 <= d < degree by {}
    }
    if weight_sum - subtree_weight[v] > weight_sum / 2 {
        is_balanced = false;
    }
    if is_balanced {
        v
    } else {
        n
    }
}

/// What is found below the first children is found below all children.
proof fn lemma_centroid_below_found(
    graph: Seq<Vec<usize>>,
    weight: Seq<usize>,
    r: Rooting,
    v: int,
    fewer: int,
    upto: int,
)
    requires
        0 <= fewer <= upto,
        centroid_below(graph, weight, r, v, fewer) != graph.len(),
    ensures
        centroid_below(graph, weight, r, v, upto) == centroid_below(graph, weight, r, v, fewer),
    decreases upto - fewer,
{
    if fewer < upto {
        lemma_centroid_below_found(graph, weight, r, v, fewer, upto - 1);
    }
}

/// The sum of all weights.
fn sum_weights(weight: &Vec<usize>) -> (sum: usize)
    requires
        total_weight(weight@) <= usize::MAX,
    ensures
        sum == total_weight(weight@),
{
    let mut sum: usize = 0;
    let mut i: usize = 0;
    let ghost all = |u: int| true;
    while i < weight.len()
        invariant
            i <= weight@.len(),
            all == (|u: int| true),
            sum == masked_sum(weight@, all, i as int),
            total_weight(weight@) <= usize::MAX,
        decreases weight@.len() - i,
    {
        proof {
            lemma_masked_sum_prefix(weight@, all, i + 1, weight@.len() as int);
        }
        sum += weight[i];
        i += 1;
    }
    sum
}

/// The sum over fewer vertices is no greater.
proof fn lemma_masked_sum_prefix(weight: Seq<usize>, mask: spec_fn(int) -> bool, fewer: int, upto: int)
    requires
        0 <= fewer <= upto,
    ensures
        0 <= masked_sum(weight, mask, fewer) <= masked_sum(weight, mask, upto),
    decreases upto - fewer,
{
    lemma_masked_sum_grows(weight, mask, mask, fewer);
    if fewer < upto {
        lemma_masked_sum_prefix(weight, mask, fewer, upto - 1);
    }
}

/// A centroid of the tree `graph` with the vertex weights `weight`: a
/// vertex whose removal leaves no part that weighs more than half of the
/// whole. Of several centroids the one is returned that comes first when
/// the tree is walked from the vertex 0, children in the order in which
/// they are listed and before their parent.
pub fn find_centroid(graph: &Vec<Vec<usize>>, weight: &Vec<usize>) -> (c: usize)
    requires
        is_tree(graph@),
        weight@.len() == graph@.len(),
        total_weight(weight@) <= usize::MAX,
    ensures
        c < graph@.len(),
        forall|r: Rooting|
            is_rooted_tree(graph@, r) ==> c == first_centroid(graph@, weight@, r, 0) && is_centroid(
                graph@,
                weight@,
                r,
                c as int,
            ),
{
    let ghost r = choose|r: Rooting| is_rooted_tree(graph@, r);
    let n = graph.len();
    let weight_sum = sum_weights(weight);
    let mut subtree_weight: Vec<usize> = Vec::new();
    while subtree_weight.len() < n
        invariant
            subtree_weight@.len() <= n,
        decreases n - subtree_weight@.len(),
    {
        subtree_weight.push(0);
    }
    subtree_dfs(graph, weight, &mut subtree_weight, 0, n, Ghost(r));
    proof {
        assert forall|u: int| 0 <= u < n implies #[trigger] subtree_weight@[u] == subtree_weight_of(
            weight@,
            r,
            u,
        ) by {
            lemma_root_subtree(graph@, r, u);
        }
        lemma_centroid_exists(graph@, weight@, r);
        assert forall|s: Rooting| is_rooted_tree(graph@, s) implies s == r by {
            lemma_rooting_unique(graph@, r, s);
        }
    }
    centroid_dfs(n, graph, weight_sum, &subtree_weight, 0, n, Ghost(r), Ghost(weight@))
}

} // verus!
