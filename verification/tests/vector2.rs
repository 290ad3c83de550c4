use algo_snippets::vector2::{angle_terms, cross, dot, norm2};

fn angle(a: (i64, i64), b: (i64, i64)) -> f64 {
    match angle_terms(a, b) {
        Some((s, c)) => (s as f64).atan2(c as f64),
        None => 0.0,
    }
}

fn assert_close(a: f64, b: f64, eps: f64) {
    assert!((a - b).abs() <= eps);
}

#[test]
fn angle_between_basic_cases() {
    let eps = 1e-12;
    assert_close(angle((1, 0), (2, 0)), 0.0, eps);
    assert_close(angle((1, 0), (0, 1)), std::f64::consts::FRAC_PI_2, eps);
    assert_close(angle((1, 0), (-1, 0)), std::f64::consts::PI, eps);
}

#[test]
fn angle_between_is_symmetric() {
    let eps = 1e-12;
    let a = (3, 4);
    let b = (-5, 2);
    assert_close(angle(a, b), angle(b, a), eps);
    assert_eq!(angle_terms(a, b), angle_terms(b, a));
}

#[test]
fn angle_between_scale_invariant() {
    let eps = 1e-12;
    let a = (2, 1);
    let b = (-1, 3);
    assert_close(angle(a, b), angle((4, 2), (-2, 6)), eps);
    assert_eq!(angle_terms(a, b), Some((7, 1)));
    assert_eq!(angle_terms((4, 2), (-2, 6)), Some((28, 4)));
}

#[test]
fn angle_between_handles_zero_vector_as_zero() {
    let eps = 1e-12;
    assert_close(angle((0, 0), (1, 0)), 0.0, eps);
    assert_close(angle((1, 0), (0, 0)), 0.0, eps);
    assert_close(angle((0, 0), (0, 0)), 0.0, eps);
    assert_eq!(angle_terms((0, 0), (1, 0)), None);
    assert_eq!(angle_terms((1, 0), (0, 0)), None);
    assert_eq!(angle_terms((0, 0), (0, 0)), None);
}

#[test]
fn cross_and_dot_exact_values() {
    assert_eq!(cross((1, 0), (0, 1)), 1);
    assert_eq!(cross((0, 1), (1, 0)), -1);
    assert_eq!(cross((2, 3), (4, 6)), 0);
    assert_eq!(cross((2, 3), (5, 7)), -1);
    assert_eq!(dot((2, 3), (5, 7)), 31);
    assert_eq!(dot((1, 0), (0, 1)), 0);
    assert_eq!(norm2((3, -4)), 25);
}

#[test]
fn products_at_the_limits() {
    let lo = i64::MIN;
    let hi = i64::MAX;
    assert_eq!(cross((lo, lo), (hi, lo)), i128::MAX - (1i128 << 63) + 1);
    assert_eq!(cross((lo, hi), (lo, lo)), (1i128 << 126) + (hi as i128) * (1i128 << 63));
    assert_eq!(dot((lo, lo), (lo, hi)), 1i128 << 63);
    assert_eq!(dot((hi, hi), (lo, lo)), -(hi as i128) * (1i128 << 64));
    assert_eq!(norm2((lo, lo)), 1u128 << 127);
}
