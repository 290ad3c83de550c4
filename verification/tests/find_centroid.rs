use algo_snippets::find_centroid::find_centroid;

#[test]
fn test_find_centroid() {
    // Test case 1: Single node tree
    {
        let graph = vec![vec![]];
        let weight = vec![1];
        let centroid = find_centroid(&graph, &weight);
        assert_eq!(centroid, 0);
    }

    // Test case 2: Two nodes
    {
        let graph = vec![vec![1], vec![0]];
        let weight = vec![1, 1];
        let centroid = find_centroid(&graph, &weight);
        assert_eq!(centroid, 1);
    }

    // Test case 3: Linear tree (unbalanced)
    {
        // 0 - 1 - 2 - 3 - 4
        let n = 5;
        let mut graph = vec![vec![]; n];
        for i in 0..n - 1 {
            graph[i].push(i + 1);
            graph[i + 1].push(i);
        }
        let weight = vec![1; n];
        let centroid = find_centroid(&graph, &weight);
        assert_eq!(centroid, 2);
    }

    // Test case 4: Balanced binary tree
    {
        let graph = vec![
            vec![1, 2],    // 0
            vec![0, 3, 4], // 1
            vec![0, 5, 6], // 2
            vec![1],       // 3
            vec![1],       // 4
            vec![2],       // 5
            vec![2],       // 6
        ];
        let weight = vec![1; 7];
        let centroid = find_centroid(&graph, &weight);
        assert_eq!(centroid, 0);
    }

    // Test case 5: Tree with varying weights
    {
        let graph = vec![
            vec![1, 2],    // 0
            vec![0, 3, 4], // 1
            vec![0],       // 2
            vec![1],       // 3
            vec![1],       // 4
        ];
        let weight = vec![1, 1, 10, 1, 1]; // Node 2 has a heavy weight
        let centroid = find_centroid(&graph, &weight);
        assert_eq!(centroid, 2);
    }

    // Test case 6: Complex tree
    {
        let graph = vec![
            vec![1, 2, 3], // 0
            vec![0],       // 1
            vec![0, 4],    // 2
            vec![0],       // 3
            vec![2, 5, 6], // 4
            vec![4],       // 5
            vec![4],       // 6
        ];
        let weight = vec![1; 7];
        let centroid = find_centroid(&graph, &weight);
        assert_eq!(centroid, 2);
    }
}

#[test]
fn of_two_centroids_the_deeper_is_found_first() {
    // A path of four vertices has the centroids 1 and 2.
    let graph = vec![vec![1], vec![0, 2], vec![1, 3], vec![2]];
    assert_eq!(find_centroid(&graph, &vec![1, 1, 1, 1]), 2);
    // With all the weight at one end, only that end is left.
    assert_eq!(find_centroid(&graph, &vec![0, 0, 0, 5]), 3);
    assert_eq!(find_centroid(&graph, &vec![5, 0, 0, 0]), 0);
    // Without any weight every vertex is a centroid, and the last leaf comes first.
    assert_eq!(find_centroid(&graph, &vec![0, 0, 0, 0]), 3);
}

#[test]
fn centroid_of_a_star_is_its_middle() {
    let graph = vec![vec![1], vec![0, 2, 3, 4], vec![1], vec![1], vec![1]];
    assert_eq!(find_centroid(&graph, &vec![1, 1, 1, 1, 1]), 1);
    assert_eq!(find_centroid(&graph, &vec![1, 1, 1, 9, 1]), 3);
    // Half of the weight in one leaf: the leaf and the middle both balance, the leaf is first.
    assert_eq!(find_centroid(&graph, &vec![1, 1, 1, 4, 1]), 3);
}
