use algo_snippets::tropical_matrix::{
    tropical_min_plus_identity, tropical_min_plus_mul, tropical_min_plus_pow,
    TROPICAL_MINPLUS_INF_USIZE,
};

#[test]
fn test_rectangular_mul_shape_and_values() {
    // A: 2x3, B: 3x2 => C: 2x2
    let inf = TROPICAL_MINPLUS_INF_USIZE;
    let a = vec![vec![0, 5, inf], vec![2, inf, 1]];
    let b = vec![vec![7, 1], vec![inf, 3], vec![4, 0]];

    let c = tropical_min_plus_mul(&a, &b);
    assert_eq!(c.len(), 2);
    assert_eq!(c[0].len(), 2);

    // c[0][0] = min_t(a[0][t]+b[t][0]) = min(0+7, 5+inf, inf+4) = 7
    assert_eq!(c[0][0], 7);
    // c[1][1] = min(2+1, inf+3, 1+0) = 1
    assert_eq!(c[1][1], 1);
}

#[test]
fn test_identity_left_right_square() {
    let a = vec![vec![0, 5, 2], vec![7, 0, 1], vec![3, 9, 0]];
    let id = tropical_min_plus_identity(3);

    assert_eq!(tropical_min_plus_mul(&id, &a), a);
    assert_eq!(tropical_min_plus_mul(&a, &id), a);
}

#[test]
fn infinity_is_two_to_the_sixtieth() {
    assert_eq!(TROPICAL_MINPLUS_INF_USIZE, 1usize << 60);
    let id = tropical_min_plus_identity(2);
    let inf = TROPICAL_MINPLUS_INF_USIZE;
    assert_eq!(id, vec![vec![0, inf], vec![inf, 0]]);
    assert_eq!(tropical_min_plus_identity(0), Vec::<Vec<usize>>::new());
}

#[test]
fn sums_are_capped_at_infinity() {
    let inf = TROPICAL_MINPLUS_INF_USIZE;
    // Entries beyond infinity count as infinity, and sums do not pass it.
    let a = vec![vec![inf - 1, usize::MAX]];
    let b = vec![vec![1, inf - 1], vec![0, 0]];
    let c = tropical_min_plus_mul(&a, &b);
    assert_eq!(c, vec![vec![inf, inf]]);
    let a = vec![vec![inf - 2, 3]];
    let b = vec![vec![1], vec![usize::MAX]];
    assert_eq!(tropical_min_plus_mul(&a, &b), vec![vec![inf - 1]]);
}

#[test]
fn test_pow_0_is_identity() {
    let a = vec![vec![0, 1, 2], vec![3, 0, 4], vec![5, 6, 0]];
    let got = tropical_min_plus_pow(a, 0);
    let want = tropical_min_plus_identity(3);
    assert_eq!(got, want);
}

#[test]
fn test_pow_2_matches_mul() {
    let a = vec![vec![0, 2, 10], vec![1, 0, 3], vec![4, 7, 0]];
    let a2_by_mul = tropical_min_plus_mul(&a, &a);
    let a2_by_pow = tropical_min_plus_pow(a, 2);
    assert_eq!(a2_by_pow, a2_by_mul);
}

#[test]
fn pow_counts_edges_of_cheapest_walks() {
    let inf = TROPICAL_MINPLUS_INF_USIZE;
    // A cycle 0 -> 1 -> 2 -> 0 with costs 1, 2, 4.
    let a = vec![vec![inf, 1, inf], vec![inf, inf, 2], vec![4, inf, inf]];
    assert_eq!(
        tropical_min_plus_pow(a.clone(), 1),
        vec![vec![inf, 1, inf], vec![inf, inf, 2], vec![4, inf, inf]]
    );
    assert_eq!(
        tropical_min_plus_pow(a.clone(), 2),
        vec![vec![inf, inf, 3], vec![6, inf, inf], vec![inf, 5, inf]]
    );
    assert_eq!(
        tropical_min_plus_pow(a.clone(), 3),
        vec![vec![7, inf, inf], vec![inf, 7, inf], vec![inf, inf, 7]]
    );
    assert_eq!(
        tropical_min_plus_pow(a.clone(), 7),
        vec![vec![inf, 15, inf], vec![inf, inf, 16], vec![18, inf, inf]]
    );
    // The power of a matrix with entries beyond infinity is that of the capped matrix.
    let b = vec![vec![usize::MAX, 1], vec![2, inf + 5]];
    assert_eq!(tropical_min_plus_pow(b, 1), vec![vec![inf, 1], vec![2, inf]]);
    let empty: Vec<Vec<usize>> = vec![];
    assert_eq!(tropical_min_plus_pow(empty, 0), Vec::<Vec<usize>>::new());
}
