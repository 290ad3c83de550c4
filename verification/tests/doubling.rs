use algo_snippets::doubling::doubling;

#[test]
fn test_doubling_single_node() {
    let next_nodes = vec![0]; // 0 -> 0
    assert_eq!(doubling(&next_nodes, 0, 1), 0);
    assert_eq!(doubling(&next_nodes, 0, 10), 0);
}

#[test]
fn test_doubling_two_nodes() {
    let next_nodes = vec![1, 0]; // 0 -> 1 -> 0
    assert_eq!(doubling(&next_nodes, 0, 1), 1);
    assert_eq!(doubling(&next_nodes, 0, 2), 0);
    assert_eq!(doubling(&next_nodes, 0, 3), 1);
}

#[test]
fn test_doubling_chain() {
    let next_nodes = vec![1, 2, 3, 4, 0]; // 0 -> 1 -> 2 -> 3 -> 4 -> 0
    assert_eq!(doubling(&next_nodes, 0, 1), 1);
    assert_eq!(doubling(&next_nodes, 0, 2), 2);
    assert_eq!(doubling(&next_nodes, 0, 3), 3);
    assert_eq!(doubling(&next_nodes, 0, 4), 4);
    assert_eq!(doubling(&next_nodes, 0, 5), 0);
    assert_eq!(doubling(&next_nodes, 0, 6), 1);
}

#[test]
fn doubling_no_step_and_many_steps() {
    let next_nodes = vec![1, 2, 3, 4, 0];
    assert_eq!(doubling(&next_nodes, 3, 0), 3);
    assert_eq!(doubling(&next_nodes, 3, 1_000_000_000_000_000_000), 3);
    assert_eq!(doubling(&next_nodes, 3, usize::MAX), (3 + usize::MAX % 5) % 5);
    // A tail that leads into a cycle: 0 -> 1 -> 2 -> 3 -> 2.
    let rho = vec![1, 2, 3, 2];
    assert_eq!(doubling(&rho, 0, 2), 2);
    assert_eq!(doubling(&rho, 0, 7), 3);
    assert_eq!(doubling(&rho, 0, 8), 2);
}

#[test]
fn doubling_agrees_with_stepping() {
    let next_nodes = vec![4, 0, 5, 1, 2, 3, 6];
    for start in 0..next_nodes.len() {
        let mut at = start;
        for k in 0..40 {
            assert_eq!(doubling(&next_nodes, start, k), at);
            at = next_nodes[at];
        }
    }
}
