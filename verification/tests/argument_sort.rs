use algo_snippets::argument_order::{ArgSortError, ArgSortOptions, OriginPolicy, TieBreak};
use algo_snippets::argument_sort::{
    sort_by_argument_default_i64, sort_by_argument_i64, try_sort_by_argument_i64,
};

#[test]
fn generic_sort_works_for_custom_type() {
    #[derive(Clone, Copy, Debug, PartialEq, Eq)]
    struct P {
        x: i64,
        y: i64,
    }

    let mut ps = vec![
        P { x: 0, y: -1 },
        P { x: 1, y: 0 },
        P { x: 0, y: 1 },
        P { x: -1, y: 0 },
    ];

    sort_by_argument_default_i64(&mut ps, |p| (p.x, p.y));

    let got: Vec<(i64, i64)> = ps.iter().map(|p| (p.x, p.y)).collect();
    assert_eq!(got, vec![(1, 0), (0, 1), (-1, 0), (0, -1)]);
}

#[test]
fn sort_matches_std_sort_with_the_comparator() {
    let mut pts: Vec<(i64, i64)> = vec![];
    for x in -3..=3 {
        for y in -3..=3 {
            pts.push((y, -x));
        }
    }
    for tie in [TieBreak::Norm2Asc, TieBreak::Lex] {
        for origin in [OriginPolicy::First, OriginPolicy::Last] {
            let opt = ArgSortOptions { origin, tie };
            let mut a = pts.clone();
            sort_by_argument_i64(&mut a, |p| *p, opt);
            let mut b = pts.clone();
            b.sort_by(|p, q| algo_snippets::argument_order::cmp_by_argument_i64(*p, *q, opt));
            assert_eq!(a, b);
        }
    }
}

#[test]
fn sort_is_stable_for_equal_coordinates() {
    let mut v = vec![("c", 1, 1), ("a", 0, 2), ("d", 1, 1), ("b", 0, 2), ("e", 1, 1)];
    sort_by_argument_default_i64(&mut v, |r| (r.1, r.2));
    let names: Vec<&str> = v.iter().map(|r| r.0).collect();
    assert_eq!(names, vec!["c", "d", "e", "a", "b"]);
}

#[test]
fn sort_is_idempotent_and_ignores_input_order() {
    let mut a = vec![(3, -1), (-2, 5), (1, 1), (-4, -4), (2, 2), (0, 7), (-1, 0)];
    let mut b = vec![(0, 7), (2, 2), (-1, 0), (3, -1), (-4, -4), (1, 1), (-2, 5)];
    sort_by_argument_default_i64(&mut a, |p| *p);
    sort_by_argument_default_i64(&mut b, |p| *p);
    assert_eq!(a, b);
    assert_eq!(
        a,
        vec![(1, 1), (2, 2), (0, 7), (-2, 5), (-1, 0), (-4, -4), (3, -1)]
    );
    let once = a.clone();
    sort_by_argument_default_i64(&mut a, |p| *p);
    assert_eq!(a, once);
}

#[test]
fn sort_places_origin_by_policy() {
    let last = ArgSortOptions {
        origin: OriginPolicy::Last,
        tie: TieBreak::Norm2Asc,
    };
    let first = ArgSortOptions {
        origin: OriginPolicy::First,
        tie: TieBreak::Norm2Asc,
    };
    let mut v = vec![(0, 0), (1, 0), (0, 1)];
    sort_by_argument_i64(&mut v, |p| *p, last);
    assert_eq!(v, vec![(1, 0), (0, 1), (0, 0)]);
    let mut v = vec![(1, 0), (0, 0), (0, 1)];
    sort_by_argument_i64(&mut v, |p| *p, first);
    assert_eq!(v, vec![(0, 0), (1, 0), (0, 1)]);
}

#[test]
fn sort_of_empty_and_single() {
    let mut v: Vec<(i64, i64)> = vec![];
    sort_by_argument_default_i64(&mut v, |p| *p);
    assert!(v.is_empty());
    let mut v = vec![(0, 0)];
    let forbid = ArgSortOptions {
        origin: OriginPolicy::Forbid,
        tie: TieBreak::Lex,
    };
    assert_eq!(try_sort_by_argument_i64(&mut v, |p| *p, forbid), Ok(()));
    assert_eq!(v, vec![(0, 0)]);
}

#[test]
fn try_sort_reports_forbidden_origin() {
    let forbid = ArgSortOptions {
        origin: OriginPolicy::Forbid,
        tie: TieBreak::Norm2Asc,
    };
    let mut v = vec![(0, -1), (0, 0), (1, 0)];
    assert_eq!(
        try_sort_by_argument_i64(&mut v, |p| *p, forbid),
        Err(ArgSortError::OriginForbidden)
    );
    assert_eq!(v, vec![(0, -1), (0, 0), (1, 0)]);
    let mut v = vec![(0, -1), (-1, 0), (1, 0)];
    assert_eq!(try_sort_by_argument_i64(&mut v, |p| *p, forbid), Ok(()));
    assert_eq!(v, vec![(1, 0), (-1, 0), (0, -1)]);
}
