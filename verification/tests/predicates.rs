use delaunay::gns_delaunay::Query;
use delaunay::point::Point2;

fn pt(x: f64, y: f64) -> Point2 {
    Point2 { x: x.to_bits(), y: y.to_bits() }
}

fn coord(p: &Point2) -> robust::Coord<f64> {
    robust::Coord { x: f64::from_bits(p.x), y: f64::from_bits(p.y) }
}

fn evaluate(query: Query) -> bool {
    match query {
        Query::CounterClockwise(a, b, c) => robust::orient2d(coord(&a), coord(&b), coord(&c)) < 0.,
        Query::InCircle(a, b, c, d) => {
            robust::incircle(coord(&a), coord(&b), coord(&c), coord(&d)) < 0.
        }
    }
}

fn in_circle(a: &Point2, b: &Point2, c: &Point2, d: &Point2) -> bool {
    evaluate(Query::InCircle(*a, *b, *c, *d))
}

fn counter_clockwise(a: &Point2, b: &Point2, c: &Point2) -> bool {
    evaluate(Query::CounterClockwise(*a, *b, *c))
}

#[test]
fn test_in_circle() {
    let a = pt(0., 0.);
    let b = pt(0., 1.);
    let c = pt(1., 0.);
    let d = pt(1., 1.);
    let e = pt(0.5, 0.5);
    assert_eq!(in_circle(&a, &b, &c, &d), false);
    assert_eq!(in_circle(&a, &b, &c, &e), true);
}

#[test]
fn test_counter_clockwise() {
    let a = pt(0., 0.);
    let b = pt(0., 1.);
    let c = pt(1., 0.);
    let d = pt(1., 1.);
    let e = pt(0.5, 0.5);
    assert_eq!(counter_clockwise(&a, &b, &c), true);
    assert_eq!(counter_clockwise(&a, &c, &b), false);
    assert_eq!(counter_clockwise(&c, &b, &a), false);
    assert_eq!(counter_clockwise(&b, &c, &a), true);
    assert_eq!(counter_clockwise(&e, &c, &a), true);
    assert_eq!(counter_clockwise(&e, &d, &a), false);
}
