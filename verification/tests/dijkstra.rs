use algo_snippets::dijkstra::dijkstra;
use algo_snippets::node_heap::{Node, NodeHeap};

#[test]
fn test_dijkstra() {
    let graph = vec![
        vec![(1, 2), (2, 5)],
        vec![(0, 2), (3, 3)],
        vec![(0, 5), (3, 1)],
        vec![(1, 3), (2, 1)],
    ];

    let start_vertex = 0;
    let dist = dijkstra(&graph, start_vertex);
    let expected = vec![0, 2, 5, 5];
    assert_eq!(dist, expected);

    let start_vertex = 1;
    let dist = dijkstra(&graph, start_vertex);
    let expected = vec![2, 0, 4, 3];
    assert_eq!(dist, expected);

    let start_vertex = 2;
    let dist = dijkstra(&graph, start_vertex);
    let expected = vec![5, 4, 0, 1];
    assert_eq!(dist, expected);

    let start_vertex = 3;
    let dist = dijkstra(&graph, start_vertex);
    let expected = vec![5, 3, 1, 0];
    assert_eq!(dist, expected);
}

#[test]
fn dijkstra_unreachable_and_single() {
    let graph: Vec<Vec<(usize, usize)>> = vec![vec![]];
    assert_eq!(dijkstra(&graph, 0), vec![0]);
    // 2 leads to 0, but nothing leads to 2.
    let graph = vec![vec![(1, 7)], vec![], vec![(0, 1)]];
    assert_eq!(dijkstra(&graph, 0), vec![0, 7, usize::MAX]);
    assert_eq!(dijkstra(&graph, 2), vec![1, 8, 0]);
}

#[test]
fn dijkstra_prefers_many_cheap_edges() {
    // One edge of cost 10 against a detour of cost 1 + 2 + 3, with a
    // parallel edge, a loop and an edge of cost zero.
    let graph = vec![
        vec![(3, 10), (1, 1), (1, 4), (0, 0)],
        vec![(2, 2)],
        vec![(3, 3), (4, 0)],
        vec![],
        vec![(3, 1)],
    ];
    assert_eq!(dijkstra(&graph, 0), vec![0, 1, 3, 4, 3]);
}

#[test]
fn dijkstra_costs_beyond_the_limit_count_as_unreachable() {
    let graph = vec![vec![(1, usize::MAX - 1)], vec![(2, 5), (3, 1)], vec![], vec![]];
    assert_eq!(dijkstra(&graph, 0), vec![0, usize::MAX - 1, usize::MAX, usize::MAX]);
}

#[test]
fn heap_gives_out_nodes_by_cost() {
    let mut heap = NodeHeap::new();
    assert_eq!(heap.len(), 0);
    assert_eq!(heap.pop(), None);
    let costs = [5usize, 3, 9, 3, 0, 7, 1, 8, 2, 2, 6, 4];
    for (vertex, &cost) in costs.iter().enumerate() {
        heap.push(Node { vertex, cost });
    }
    assert_eq!(heap.len(), costs.len());
    let mut out = vec![];
    while let Some(node) = heap.pop() {
        assert_eq!(costs[node.vertex], node.cost);
        out.push(node.cost);
    }
    assert_eq!(out, vec![0, 1, 2, 2, 3, 3, 4, 5, 6, 7, 8, 9]);
    assert_eq!(heap.len(), 0);
}

#[test]
fn dijkstra_on_a_larger_graph_agrees_with_relaxation() {
    // A ring of 200 vertices with chords; costs from a small generator.
    let n = 200;
    let mut graph: Vec<Vec<(usize, usize)>> = vec![vec![]; n];
    let mut seed: usize = 12345;
    for u in 0..n {
        for step in [1usize, 7, 31] {
            seed = (seed * 1103515245 + 12345) % 2147483648;
            let cost = seed % 50;
            graph[u].push(((u + step) % n, cost));
            graph[(u + step) % n].push((u, cost + 1));
        }
    }
    let dist = dijkstra(&graph, 0);
    // Bellman-Ford as the reference.
    let mut want = vec![usize::MAX; n];
    want[0] = 0;
    for _ in 0..n {
        for u in 0..n {
            if want[u] == usize::MAX {
                continue;
            }
            for &(v, c) in &graph[u] {
                if want[u] + c < want[v] {
                    want[v] = want[u] + c;
                }
            }
        }
    }
    assert_eq!(dist, want);
}
