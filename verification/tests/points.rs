use delaunay::binary64::equal_numbers;
use delaunay::binary64::is_finite_number;
use delaunay::binary64::less_than;
use delaunay::binary64::near_numbers;
use delaunay::binary64::power_of_two;
use delaunay::error::TriangulationError;
use delaunay::order::compare_points;
use delaunay::point::all_points_finite;
use delaunay::point::nearly_equals;
use delaunay::point::remove_near_equal_points;
use delaunay::point::sanitize_points_vec;
use delaunay::point::sort_points;
use delaunay::point::Point2;
use std::cmp::Ordering;

const EPSILON: f64 = f64::EPSILON * 2.;

fn pt(x: f64, y: f64) -> Point2 {
    Point2 { x: x.to_bits(), y: y.to_bits() }
}

fn samples() -> Vec<f64> {
    let mut values = vec![
        0.,
        -0.,
        1.,
        -1.,
        0.5,
        2.,
        4.,
        8.,
        3.,
        1e-300,
        -1e-300,
        1e300,
        -1e300,
        f64::MIN_POSITIVE,
        f64::MIN_POSITIVE / 4.,
        f64::MAX,
        f64::MIN,
        5e-324,
        -5e-324,
        EPSILON,
        -EPSILON,
        EPSILON / 2.,
        EPSILON * 2.,
        EPSILON * 0.75,
        1e-16,
        3e-16,
        5e-16,
        1e-15,
        123456.789,
    ];
    for k in 0..12 {
        let step = (k as f64) * f64::EPSILON / 2.;
        values.push(1. + step);
        values.push(1. - step);
        values.push(2. + step * 2.);
        values.push(-(1. + step));
        values.push(step);
        values.push(-step);
        values.push(4. - step * 2.);
        values.push(4. + step * 4.);
    }
    values
}

#[test]
fn test_remove_near_equal_points() {
    let mut points = vec![
        pt(0., 1.),
        pt(0., 1.),
        pt(1., 1.),
        pt(3., 1.),
        pt(3., 1.),
        pt(3., 2.),
    ];

    assert_eq!(sanitize_points_vec(&mut points), Ok(()));
    assert_eq!(
        points,
        vec![pt(0., 1.), pt(1., 1.), pt(3., 1.), pt(3., 2.),]
    );
}

#[test]
fn sanitize_sorts_before_it_drops() {
    let mut points = vec![pt(3., 2.), pt(0., 1.), pt(3., 1.), pt(1., 1.), pt(0., 1.), pt(3., 1.)];
    assert_eq!(sanitize_points_vec(&mut points), Ok(()));
    assert_eq!(points, vec![pt(0., 1.), pt(1., 1.), pt(3., 1.), pt(3., 2.)]);
}

#[test]
fn sanitize_twice_is_sanitize_once() {
    let mut points = Vec::new();
    for (i, x) in samples().into_iter().enumerate() {
        for (j, y) in samples().into_iter().enumerate() {
            if (i * 7 + j * 3) % 11 == 0 {
                points.push(pt(x, y));
            }
        }
    }
    assert_eq!(sanitize_points_vec(&mut points), Ok(()));
    let once = points.clone();
    assert_eq!(sanitize_points_vec(&mut points), Ok(()));
    assert_eq!(points.len(), once.len());
    for (a, b) in points.iter().zip(once.iter()) {
        assert_eq!((a.x, a.y), (b.x, b.y));
    }
    for pair in points.windows(2) {
        assert!(!nearly_equals(&pair[0], &pair[1]));
        assert_eq!(compare_points(&pair[0], &pair[1]), Ordering::Less);
    }
}

#[test]
fn sanitize_of_a_permutation_is_the_same() {
    let mut points = vec![pt(2., 1.), pt(0., 0.), pt(2., -1.), pt(1., 5.), pt(0., 1e-17), pt(-3., 0.)];
    let mut reversed = points.clone();
    reversed.reverse();
    let mut rotated = points.clone();
    rotated.rotate_left(2);
    assert_eq!(sanitize_points_vec(&mut points), Ok(()));
    assert_eq!(sanitize_points_vec(&mut reversed), Ok(()));
    assert_eq!(sanitize_points_vec(&mut rotated), Ok(()));
    assert_eq!(points, vec![pt(-3., 0.), pt(0., 0.), pt(1., 5.), pt(2., -1.), pt(2., 1.)]);
    assert_eq!(points, reversed);
    assert_eq!(points, rotated);
}

#[test]
fn sanitize_keeps_the_first_of_a_run() {
    let step = f64::EPSILON;
    let mut points = vec![pt(0., 0.), pt(step, 0.), pt(2. * step, 0.), pt(3. * step, 0.), pt(4. * step, 0.)];
    assert_eq!(sanitize_points_vec(&mut points), Ok(()));
    assert_eq!(points, vec![pt(0., 0.), pt(3. * step, 0.)]);
}

#[test]
fn sanitize_rejects_coordinates_that_are_not_finite() {
    for bad in [f64::NAN, f64::INFINITY, f64::NEG_INFINITY, -f64::NAN] {
        let mut points = vec![pt(1., 0.), pt(0., bad), pt(0., 0.)];
        assert_eq!(
            sanitize_points_vec(&mut points),
            Err(TriangulationError::InvalidCoordinate)
        );
        assert_eq!(points.len(), 3);
        assert_eq!((points[0].x, points[0].y), (1f64.to_bits(), 0f64.to_bits()));
        assert!(!all_points_finite(&points));
        let mut points = vec![pt(bad, 0.)];
        assert_eq!(
            sanitize_points_vec(&mut points),
            Err(TriangulationError::InvalidCoordinate)
        );
    }
    assert!(all_points_finite(&vec![pt(f64::MAX, f64::MIN), pt(0., -0.)]));
    assert!(all_points_finite(&Vec::new()));
}

#[test]
fn sanitize_takes_short_lists() {
    let mut none: Vec<Point2> = Vec::new();
    assert_eq!(sanitize_points_vec(&mut none), Ok(()));
    assert!(none.is_empty());
    let mut one = vec![pt(1., 2.)];
    assert_eq!(sanitize_points_vec(&mut one), Ok(()));
    assert_eq!(one, vec![pt(1., 2.)]);
    let mut same = vec![pt(1., 2.), pt(1., 2.), pt(1., 2.)];
    assert_eq!(sanitize_points_vec(&mut same), Ok(()));
    assert_eq!(same, vec![pt(1., 2.)]);
}

#[test]
fn sort_is_lexicographic_and_stable() {
    let mut points = vec![pt(1., 0.), pt(0., 2.), pt(-0., 1.), pt(0., 1.), pt(-1., 9.), pt(0., -0.), pt(1., -5.)];
    sort_points(&mut points);
    let bits: Vec<(u64, u64)> = points.iter().map(|p| (p.x, p.y)).collect();
    let expected: Vec<(u64, u64)> =
        [pt(-1., 9.), pt(0., -0.), pt(-0., 1.), pt(0., 1.), pt(0., 2.), pt(1., -5.), pt(1., 0.)]
            .iter()
            .map(|p| (p.x, p.y))
            .collect();
    assert_eq!(bits, expected);
}

#[test]
fn sort_agrees_with_the_order_of_the_values() {
    let values = samples();
    let mut points = Vec::new();
    for (i, x) in values.iter().enumerate() {
        points.push(pt(*x, values[(i * 5 + 3) % values.len()]));
    }
    let mut expected = points.clone();
    expected.sort_by(|a, b| {
        let ka = (f64::from_bits(a.x), f64::from_bits(a.y));
        let kb = (f64::from_bits(b.x), f64::from_bits(b.y));
        ka.partial_cmp(&kb).unwrap()
    });
    sort_points(&mut points);
    let got: Vec<(u64, u64)> = points.iter().map(|p| (p.x, p.y)).collect();
    let want: Vec<(u64, u64)> = expected.iter().map(|p| (p.x, p.y)).collect();
    assert_eq!(got, want);
}

#[test]
fn comparison_agrees_with_the_values() {
    for a in samples() {
        for b in samples() {
            assert_eq!(less_than(a.to_bits(), b.to_bits()), a < b, "{} < {}", a, b);
            assert_eq!(equal_numbers(a.to_bits(), b.to_bits()), a == b, "{} == {}", a, b);
            assert_eq!(
                compare_points(&pt(a, 1.), &pt(b, 1.)),
                a.partial_cmp(&b).unwrap()
            );
            assert_eq!(
                compare_points(&pt(1., a), &pt(1., b)),
                a.partial_cmp(&b).unwrap()
            );
            assert_eq!(pt(a, b) == pt(a, b), true);
            assert_eq!(pt(a, b) == pt(b, a), a == b);
        }
    }
    assert_eq!(compare_points(&pt(0., 5.), &pt(1., 0.)), Ordering::Less);
    assert_eq!(compare_points(&pt(1., 0.), &pt(0., 5.)), Ordering::Greater);
    assert_eq!(compare_points(&pt(-0., 0.), &pt(0., -0.)), Ordering::Equal);
    assert!(!equal_numbers(f64::NAN.to_bits(), f64::NAN.to_bits()));
    assert!(equal_numbers(f64::INFINITY.to_bits(), f64::INFINITY.to_bits()));
    assert!(pt(f64::NAN, 0.) != pt(f64::NAN, 0.));
}

#[test]
fn finite_numbers_are_told_from_the_others() {
    for v in samples() {
        assert!(is_finite_number(v.to_bits()));
    }
    for v in [f64::NAN, -f64::NAN, f64::INFINITY, f64::NEG_INFINITY] {
        assert!(!is_finite_number(v.to_bits()));
        assert!(!near_numbers(v.to_bits(), v.to_bits()));
        assert!(!near_numbers(v.to_bits(), 0f64.to_bits()));
        assert!(!near_numbers(0f64.to_bits(), v.to_bits()));
    }
    assert!(!is_finite_number(0x7ff0_0000_0000_0001));
    assert!(is_finite_number(0x7fef_ffff_ffff_ffff));
}

#[test]
fn nearness_agrees_with_the_distance_of_the_values() {
    for a in samples() {
        for b in samples() {
            let difference = a - b;
            let exact = difference + b == a && a - difference == b;
            if exact || difference.abs() > 2. * EPSILON || difference.abs() < EPSILON / 2. {
                assert_eq!(
                    near_numbers(a.to_bits(), b.to_bits()),
                    difference.abs() <= EPSILON,
                    "{:e} and {:e}",
                    a,
                    b
                );
            }
            assert_eq!(
                near_numbers(a.to_bits(), b.to_bits()),
                near_numbers(b.to_bits(), a.to_bits())
            );
        }
    }
}

#[test]
fn nearness_is_exact_at_the_bound() {
    let near = |a: f64, b: f64| near_numbers(a.to_bits(), b.to_bits());
    assert!(near(0., EPSILON));
    assert!(near(-0., -EPSILON));
    assert!(near(EPSILON / 2., -EPSILON / 2.));
    assert!(!near(0., EPSILON * (1. + f64::EPSILON)));
    assert!(!near(EPSILON / 2., -EPSILON / 2. * (1. + f64::EPSILON)));
    assert!(near(1., 1. + EPSILON));
    assert!(near(1., 1. + f64::EPSILON));
    assert!(!near(1., 1. + 1.5 * EPSILON));
    assert!(near(4., 4. - EPSILON));
    assert!(!near(4., 4. + 2. * EPSILON));
    assert!(near(2., 2. + EPSILON));
    assert!(!near(8., 8. + 4. * EPSILON));
    assert!(near(1e300, 1e300));
    assert!(!near(1e300, -1e300));
    assert!(!near(f64::MAX, f64::MIN));
    assert!(near(5e-324, -5e-324));
    assert!(near(f64::MIN_POSITIVE, -f64::MIN_POSITIVE));
    // The distance is taken without rounding: 2^-51 + 2^-1074 is too far.
    assert!(near(EPSILON, 0.));
    assert!(near(EPSILON, 5e-324));
    assert!(!near(EPSILON, -5e-324));
    assert!(!near(-EPSILON, 5e-324));
    assert!(!near(EPSILON * (1. + f64::EPSILON), 5e-324));
    assert!(near(EPSILON * (1. - f64::EPSILON / 2.), -5e-324));
}

#[test]
fn points_are_near_in_both_coordinates() {
    assert!(nearly_equals(&pt(0., 1.), &pt(0., 1.)));
    assert!(nearly_equals(&pt(0., 1.), &pt(EPSILON, 1. - EPSILON / 2.)));
    assert!(!nearly_equals(&pt(0., 1.), &pt(0., 2.)));
    assert!(!nearly_equals(&pt(0., 1.), &pt(1., 1.)));
    assert!(!nearly_equals(&pt(0., 1.), &pt(2. * EPSILON, 1.)));
}

#[test]
fn near_points_are_dropped_as_the_list_is_walked() {
    let step = EPSILON * 0.75;
    // Each point is near its neighbours, and only those.
    let mut points = vec![pt(0., 0.), pt(step, 0.), pt(2. * step, 0.), pt(3. * step, 0.), pt(1., 1.), pt(1., 1.)];
    remove_near_equal_points(&mut points);
    assert_eq!(points, vec![pt(0., 0.), pt(2. * step, 0.), pt(1., 1.)]);
}

#[test]
fn powers_of_two_are_exact() {
    assert_eq!(power_of_two(0), 1);
    assert_eq!(power_of_two(1), 2);
    assert_eq!(power_of_two(64), 1u128 << 64);
    assert_eq!(power_of_two(127), 1u128 << 127);
}
