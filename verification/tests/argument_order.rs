use algo_snippets::argument_order::{
    cmp_by_argument_default_i64, cmp_by_argument_i64, try_cmp_by_argument_i64, upper_half,
    ArgSortError, ArgSortOptions, OriginPolicy, TieBreak,
};
use algo_snippets::vector2::norm2;
use std::cmp::Ordering;

#[test]
fn default_orders_ccw_from_pos_x() {
    let mut v = vec![(1, 0), (0, 1), (-1, 0), (0, -1)];
    v.sort_by(|a, b| cmp_by_argument_default_i64(*a, *b));
    assert_eq!(v, vec![(1, 0), (0, 1), (-1, 0), (0, -1)]);
}

#[test]
fn same_direction_tie_break_by_norm2() {
    let mut v = vec![(2, 2), (1, 1), (3, 3)];
    v.sort_by(|a, b| cmp_by_argument_default_i64(*a, *b));
    assert_eq!(v, vec![(1, 1), (2, 2), (3, 3)]);
}

#[test]
fn default_handles_origin_last() {
    let mut v = [(0, 0), (1, 0), (0, 1)];
    v.sort_by(|a, b| cmp_by_argument_default_i64(*a, *b));
    assert_eq!(v[v.len() - 1], (0, 0));
}

#[test]
fn custom_options_work() {
    let opt = ArgSortOptions {
        origin: OriginPolicy::First,
        tie: TieBreak::Lex,
    };
    let mut v = [(0, 0), (2, 2), (1, 1)];
    v.sort_by(|a, b| cmp_by_argument_i64(*a, *b, opt));
    assert_eq!(v[0], (0, 0));
}

#[test]
fn matches_reference_sort_using_atan2_for_small_points() {
    let mut pts = vec![];
    for x in -3..=3 {
        for y in -3..=3 {
            if x == 0 && y == 0 {
                continue;
            }
            pts.push((x, y));
        }
    }

    let mut a = pts.clone();
    a.sort_by(|p, q| cmp_by_argument_default_i64(*p, *q));

    let mut b = pts.clone();
    b.sort_by(|(px, py), (qx, qy)| {
        let ap = (*py as f64).atan2(*px as f64);
        let aq = (*qy as f64).atan2(*qx as f64);
        let ap = if ap < 0.0 {
            ap + std::f64::consts::TAU
        } else {
            ap
        };
        let aq = if aq < 0.0 {
            aq + std::f64::consts::TAU
        } else {
            aq
        };
        ap.partial_cmp(&aq)
            .unwrap()
            .then_with(|| norm2((*px, *py)).cmp(&norm2((*qx, *qy))))
    });

    assert_eq!(a, b);
}

#[test]
fn origin_forbid_is_reported() {
    let opt = ArgSortOptions {
        origin: OriginPolicy::Forbid,
        tie: TieBreak::Norm2Asc,
    };
    assert_eq!(
        try_cmp_by_argument_i64((0, 0), (1, 0), opt),
        Err(ArgSortError::OriginForbidden)
    );
    assert_eq!(
        try_cmp_by_argument_i64((1, 0), (0, 0), opt),
        Err(ArgSortError::OriginForbidden)
    );
    assert_eq!(
        try_cmp_by_argument_i64((0, 0), (0, 0), opt),
        Err(ArgSortError::OriginForbidden)
    );
    assert_eq!(
        try_cmp_by_argument_i64((1, 0), (0, 1), opt),
        Ok(Ordering::Less)
    );
}

#[test]
fn forbid_never_fails_without_origin() {
    let opt = ArgSortOptions {
        origin: OriginPolicy::Forbid,
        tie: TieBreak::Lex,
    };
    for ax in -2..=2 {
        for ay in -2..=2 {
            for bx in -2..=2 {
                for by in -2..=2 {
                    let origin = (ax == 0 && ay == 0) || (bx == 0 && by == 0);
                    let r = try_cmp_by_argument_i64((ax, ay), (bx, by), opt);
                    assert_eq!(r.is_err(), origin);
                }
            }
        }
    }
}

#[test]
fn origin_policy_places_origin() {
    let first = ArgSortOptions {
        origin: OriginPolicy::First,
        tie: TieBreak::Norm2Asc,
    };
    let last = ArgSortOptions {
        origin: OriginPolicy::Last,
        tie: TieBreak::Norm2Asc,
    };
    assert_eq!(cmp_by_argument_i64((0, 0), (5, -1), first), Ordering::Less);
    assert_eq!(cmp_by_argument_i64((5, -1), (0, 0), first), Ordering::Greater);
    assert_eq!(cmp_by_argument_i64((0, 0), (0, 0), first), Ordering::Equal);
    assert_eq!(cmp_by_argument_i64((0, 0), (5, -1), last), Ordering::Greater);
    assert_eq!(cmp_by_argument_i64((5, -1), (0, 0), last), Ordering::Less);
    assert_eq!(cmp_by_argument_i64((0, 0), (0, 0), last), Ordering::Equal);

    let mut v = vec![(0, 0), (1, 0), (0, 1)];
    v.sort_by(|a, b| cmp_by_argument_i64(*a, *b, last));
    assert_eq!(v, vec![(1, 0), (0, 1), (0, 0)]);
    v.sort_by(|a, b| cmp_by_argument_i64(*a, *b, first));
    assert_eq!(v, vec![(0, 0), (1, 0), (0, 1)]);
}

#[test]
fn default_options_are_last_and_norm2() {
    let opt = ArgSortOptions::default();
    assert_eq!(opt.origin, OriginPolicy::Last);
    assert_eq!(opt.tie, TieBreak::Norm2Asc);
}

#[test]
fn half_plane_boundary() {
    assert!(upper_half((1, 0)));
    assert!(upper_half((0, 0)));
    assert!(upper_half((-5, 1)));
    assert!(!upper_half((-1, 0)));
    assert!(!upper_half((3, -1)));
    // The positive x-axis opens the order, the negative x-axis opens its second half.
    assert_eq!(cmp_by_argument_default_i64((1, 0), (-1, 0)), Ordering::Less);
    assert_eq!(cmp_by_argument_default_i64((-1, 0), (1, -1)), Ordering::Less);
    assert_eq!(cmp_by_argument_default_i64((1, -1), (1, 0)), Ordering::Greater);
}

#[test]
fn lex_tie_break_orders_by_x_then_y() {
    let opt = ArgSortOptions {
        origin: OriginPolicy::Last,
        tie: TieBreak::Lex,
    };
    // Same direction in the third quadrant: the farther point has the smaller x.
    assert_eq!(cmp_by_argument_i64((-2, -2), (-1, -1), opt), Ordering::Less);
    assert_eq!(cmp_by_argument_default_i64((-2, -2), (-1, -1)), Ordering::Greater);
    // On the y-axis x ties and y decides.
    assert_eq!(cmp_by_argument_i64((0, 3), (0, 2), opt), Ordering::Greater);
    assert_eq!(cmp_by_argument_i64((0, 2), (0, 2), opt), Ordering::Equal);
}

#[test]
fn extreme_coordinates_do_not_overflow() {
    let lo = i64::MIN;
    let hi = i64::MAX;
    assert_eq!(cmp_by_argument_default_i64((hi, 1), (hi, 2)), Ordering::Less);
    assert_eq!(cmp_by_argument_default_i64((lo, lo), (hi, hi)), Ordering::Greater);
    assert_eq!(cmp_by_argument_default_i64((lo, lo), (lo, lo)), Ordering::Equal);
    assert_eq!(cmp_by_argument_default_i64((lo, lo), (-1, -1)), Ordering::Greater);
    assert_eq!(cmp_by_argument_default_i64((lo, hi), (hi, lo)), Ordering::Less);
}

#[test]
fn comparator_is_a_strict_total_order_on_a_grid() {
    let mut pts = vec![];
    for x in -2..=2i64 {
        for y in -2..=2i64 {
            pts.push((x, y));
        }
    }
    for tie in [TieBreak::Norm2Asc, TieBreak::Lex] {
        for origin in [OriginPolicy::First, OriginPolicy::Last] {
            let opt = ArgSortOptions { origin, tie };
            for &a in &pts {
                for &b in &pts {
                    let ab = cmp_by_argument_i64(a, b, opt);
                    assert_eq!(ab, cmp_by_argument_i64(b, a, opt).reverse());
                    assert_eq!(ab == Ordering::Equal, a == b);
                    for &c in &pts {
                        if ab == Ordering::Less
                            && cmp_by_argument_i64(b, c, opt) == Ordering::Less
                        {
                            assert_eq!(cmp_by_argument_i64(a, c, opt), Ordering::Less);
                        }
                    }
                }
            }
        }
    }
}
