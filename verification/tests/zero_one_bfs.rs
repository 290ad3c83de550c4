use algo_snippets::zero_one_bfs::{zero_one_bfs, ZERO_ONE_BFS_INF};

#[test]
fn test_zero_one_bfs() {
    let field = vec![
        vec!['.', '.', '.', '.', '.', '.'],
        vec!['#', '#', '#', '.', '.', '.'],
        vec!['#', '#', '#', '.', '.', '.'],
        vec!['#', '#', '#', '#', '#', '#'],
        vec!['.', '.', '.', '#', '#', '#'],
        vec!['.', '.', '#', '#', '#', '#'],
    ];
    let h = field.len();
    let w = field[0].len();
    let start = (0, 5);
    let dist = zero_one_bfs(&field, h, w, start);
    let expected = vec![
        vec![0, 0, 0, 0, 0, 0],
        vec![1, 1, 1, 0, 0, 0],
        vec![2, 2, 1, 0, 0, 0],
        vec![3, 3, 2, 1, 1, 1],
        vec![2, 2, 2, 2, 2, 2],
        vec![2, 2, 3, 3, 3, 3],
    ];
    assert_eq!(dist, expected);
}

#[test]
fn zero_one_bfs_on_part_of_a_field() {
    let field = vec![vec!['.', '#', '.'], vec!['#', '#', '.'], vec!['.', '.', '.']];
    // Only the first two rows and columns: every way to the corner enters two walls.
    assert_eq!(zero_one_bfs(&field, 2, 2, (0, 0)), vec![vec![0, 1], vec![1, 2]]);
    // The whole field: the corner is reached around the walls at cost one.
    assert_eq!(
        zero_one_bfs(&field, 3, 3, (0, 0)),
        vec![vec![0, 1, 1], vec![1, 2, 1], vec![1, 1, 1]]
    );
    assert_eq!(zero_one_bfs(&field, 1, 1, (0, 0)), vec![vec![0]]);
    assert_eq!(ZERO_ONE_BFS_INF, 1 << 60);
}

#[test]
fn zero_one_bfs_start_on_a_wall_costs_nothing() {
    let field = vec![vec!['#', '#', '.', '#']];
    assert_eq!(zero_one_bfs(&field, 1, 4, (0, 0)), vec![vec![0, 1, 1, 2]]);
    assert_eq!(zero_one_bfs(&field, 1, 4, (0, 2)), vec![vec![2, 1, 0, 1]]);
}
