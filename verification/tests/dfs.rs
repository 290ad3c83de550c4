use algo_snippets::dfs::dfs;

fn create_graph() -> Vec<Vec<usize>> {
    vec![
        vec![1, 2],
        vec![0, 3, 4],
        vec![0, 5, 6],
        vec![1],
        vec![1],
        vec![2],
        vec![2],
    ]
}

#[test]
fn test_dfs_single_v() {
    let graph = vec![vec![]];
    let mut seen = vec![false];
    dfs(&graph, &mut seen, 0);
    assert_eq!(seen, vec![true]);
}

#[test]
fn test_dfs_simple_graph() {
    let graph = create_graph();
    let mut seen = vec![false; graph.len()];
    dfs(&graph, &mut seen, 0);
    assert_eq!(seen, vec![true, true, true, true, true, true, true]);
}

#[test]
fn test_dfs_disconnected_graph() {
    let graph = vec![vec![1], vec![0], vec![3], vec![2]];
    let mut seen = vec![false; graph.len()];
    dfs(&graph, &mut seen, 0);
    assert_eq!(seen, vec![true, true, false, false]);
}

#[test]
fn dfs_does_not_pass_marked_vertices() {
    // A chain 0 - 1 - 2 - 3 in which 2 is marked beforehand.
    let graph = vec![vec![1], vec![0, 2], vec![1, 3], vec![2]];
    let mut seen = vec![false, false, true, false];
    dfs(&graph, &mut seen, 0);
    assert_eq!(seen, vec![true, true, true, false]);
    // Started at a marked vertex, the search still leaves it.
    let mut seen = vec![false, false, true, false];
    dfs(&graph, &mut seen, 2);
    assert_eq!(seen, vec![true, true, true, true]);
}

#[test]
fn dfs_follows_directed_edges() {
    let graph = vec![vec![1], vec![], vec![0]];
    let mut seen = vec![false; 3];
    dfs(&graph, &mut seen, 0);
    assert_eq!(seen, vec![true, true, false]);
}
