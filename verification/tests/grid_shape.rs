use algo_snippets::grid_shape::{rotate_grid, trim_grid};

#[test]
fn test_rotate_grid_rectangular_field() {
    let field = vec![
        vec!['.', '.', '#'],
        vec!['.', '#', '.'],
        vec!['#', '.', '.'],
        vec!['#', '.', '#'],
    ];

    let rotated = rotate_grid(&field);

    let expected = vec![
        vec!['#', '#', '.', '.'],
        vec!['.', '.', '#', '.'],
        vec!['#', '.', '.', '#'],
    ];

    assert_eq!(rotated, expected);
}

#[test]
fn test_rotate_grid_square_field() {
    let field = vec![
        vec!['.', '.', '#'],
        vec!['.', '#', '.'],
        vec!['#', '#', '.'],
    ];

    let rotated = rotate_grid(&field);

    let expected = vec![
        vec!['#', '.', '.'],
        vec!['#', '#', '.'],
        vec!['.', '.', '#'],
    ];

    assert_eq!(rotated, expected);
}

#[test]
fn test_rotate_grid_full_circle() {
    let field = vec![
        vec!['.', '.', '#', '.'],
        vec!['.', '#', '.', '.'],
        vec!['#', '.', '.', '.'],
        vec!['.', '.', '.', '.'],
    ];

    let once_rotated = rotate_grid(&field);
    let twice_rotated = rotate_grid(&once_rotated);
    let thrice_rotated = rotate_grid(&twice_rotated);
    let full_circle_rotated = rotate_grid(&thrice_rotated);

    assert_eq!(field, full_circle_rotated);
}

#[test]
fn test_trim_grid() {
    let field = vec![
        vec!['.', '.', '.', '.', '.'],
        vec!['.', '.', '#', '.', '.'],
        vec!['.', '.', '#', '.', '.'],
        vec!['.', '#', '#', '#', '.'],
        vec!['.', '.', '.', '.', '.'],
    ];

    let trimmed = trim_grid(&field);

    let expected = vec![
        vec!['.', '#', '.'],
        vec!['.', '#', '.'],
        vec!['#', '#', '#'],
    ];

    assert_eq!(trimmed, expected);
}

#[test]
fn test_trim_grid_no_change_needed() {
    let field = vec![
        vec!['.', '.', '#', '.', '.'],
        vec!['.', '.', '#', '.', '.'],
        vec!['.', '.', '#', '.', '.'],
        vec!['#', '#', '#', '#', '#'],
        vec!['.', '.', '#', '.', '.'],
    ];

    let trimmed = trim_grid(&field);

    assert_eq!(trimmed, field);
}

#[test]
fn test_trim_grid_single_cell() {
    let field = vec![
        vec!['.', '.', '.', '.'],
        vec!['.', '.', '.', '.'],
        vec!['.', '.', '.', '.'],
        vec!['.', '.', '#', '.'],
    ];

    let trimmed = trim_grid(&field);

    let expected = vec![vec!['#']];

    assert_eq!(trimmed, expected);
}

#[test]
fn test_trim_grid_empty_field() {
    let field = vec![
        vec!['.', '.', '.', '.', '.'],
        vec!['.', '.', '.', '.', '.'],
        vec!['.', '.', '.', '.', '.'],
        vec!['.', '.', '.', '.', '.'],
        vec!['.', '.', '.', '.', '.'],
    ];

    let trimmed = trim_grid(&field);

    let expected: Vec<Vec<char>> = Vec::new();

    assert_eq!(trimmed, expected);
}

#[test]
fn rotate_single_row_and_column() {
    let row = vec![vec!['a', 'b', 'c']];
    let column = rotate_grid(&row);
    assert_eq!(column, vec![vec!['a'], vec!['b'], vec!['c']]);
    assert_eq!(rotate_grid(&column), vec![vec!['c', 'b', 'a']]);
    let no_columns: Vec<Vec<char>> = vec![vec![], vec![]];
    assert_eq!(rotate_grid(&no_columns), Vec::<Vec<char>>::new());
}

#[test]
fn trim_keeps_the_corners() {
    let field = vec![
        vec!['#', '.', '.'],
        vec!['.', '.', '.'],
        vec!['.', '.', '#'],
    ];
    assert_eq!(trim_grid(&field), field);
    let field = vec![
        vec!['.', '.', '.'],
        vec!['#', '.', '.'],
        vec!['.', '.', '.'],
    ];
    assert_eq!(trim_grid(&field), vec![vec!['#']]);
    let no_columns: Vec<Vec<char>> = vec![vec![]];
    assert_eq!(trim_grid(&no_columns), Vec::<Vec<char>>::new());
}
