use algo_snippets::bfs::{bfs, grid_bfs, BFS_INF};

fn create_graph() -> Vec<Vec<usize>> {
    vec![
        vec![1, 2],
        vec![0, 3, 4],
        vec![0, 5, 6],
        vec![1],
        vec![1],
        vec![2],
        vec![2],
    ]
}

#[test]
fn test_bfs_single_node() {
    let graph = vec![vec![]];
    let result = bfs(&graph, 0);
    assert_eq!(result, vec![0]);
}

#[test]
fn test_bfs_simple_graph() {
    let graph = create_graph();
    let result = bfs(&graph, 0);
    assert_eq!(result, vec![0, 1, 1, 2, 2, 2, 2]);
}

#[test]
fn test_bfs_simple_graph_alternate_start() {
    let graph = create_graph();
    let result = bfs(&graph, 3);
    assert_eq!(result, vec![2, 1, 3, 0, 2, 4, 4]);
}

#[test]
fn test_bfs_disconnected_graph() {
    let graph = vec![vec![1], vec![0], vec![3], vec![2]];
    let result = bfs(&graph, 0);
    let inf = (1 << 30) as usize;
    assert_eq!(result, vec![0, 1, inf, inf]);
}

#[test]
fn bfs_follows_edges_one_way_only() {
    // 0 -> 1 -> 2 -> 0 and 3 -> 0; 3 is not reached from 0.
    let graph = vec![vec![1], vec![2], vec![0], vec![0]];
    assert_eq!(bfs(&graph, 0), vec![0, 1, 2, BFS_INF]);
    assert_eq!(bfs(&graph, 3), vec![1, 2, 3, 0]);
    assert_eq!(BFS_INF, 1 << 30);
}

#[test]
fn bfs_takes_the_shorter_of_two_ways() {
    // A long way 0-1-2-3-4 and a short cut 0-4, with a loop and a double edge.
    let graph = vec![vec![1, 4, 0], vec![2, 2], vec![3], vec![4], vec![3]];
    assert_eq!(bfs(&graph, 0), vec![0, 1, 2, 2, 1]);
}

#[test]
fn test_grid_bfs_single_cell() {
    let field = vec![vec!['.']];
    let result = grid_bfs(&field, (0, 0));
    assert_eq!(result, vec![vec![0]]);
}

#[test]
fn test_grid_bfs_obstacles() {
    let field = vec![
        vec!['.', '.', '.'],
        vec!['.', '#', '.'],
        vec!['.', '.', '.'],
    ];
    let result = grid_bfs(&field, (0, 0));
    let inf = (1 << 30) as usize;
    assert_eq!(result, vec![vec![0, 1, 2], vec![1, inf, 3], vec![2, 3, 4]]);
}

#[test]
fn test_grid_bfs_disconnected() {
    let field = vec![
        vec!['.', '#', '.'],
        vec!['#', '#', '#'],
        vec!['.', '#', '.'],
    ];
    let result = grid_bfs(&field, (0, 0));
    let inf = (1 << 30) as usize;
    assert_eq!(
        result,
        vec![vec![0, inf, inf], vec![inf, inf, inf], vec![inf, inf, inf]]
    );
}

#[test]
fn test_grid_bfs_empty_field() {
    let field: Vec<Vec<char>> = Vec::new();
    let result = grid_bfs(&field, (0, 0));
    assert!(result.is_empty());
}

#[test]
fn grid_bfs_may_start_on_a_wall() {
    let field = vec![vec!['#', '.', '#', '.']];
    let result = grid_bfs(&field, (0, 0));
    assert_eq!(result, vec![vec![0, 1, BFS_INF, BFS_INF]]);
}

#[test]
fn grid_bfs_goes_around() {
    let field = vec![
        vec!['.', '#', '.', '.'],
        vec!['.', '#', '.', '#'],
        vec!['.', '.', '.', '.'],
    ];
    let result = grid_bfs(&field, (0, 0));
    assert_eq!(
        result,
        vec![
            vec![0, BFS_INF, 6, 7],
            vec![1, BFS_INF, 5, BFS_INF],
            vec![2, 3, 4, 5]
        ]
    );
}
