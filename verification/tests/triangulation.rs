use delaunay::edge::EdgeRef;
use delaunay::error::TriangulationError;
use delaunay::gns_delaunay::Query;
use delaunay::gns_delaunay::Triangulator;
use delaunay::point::sanitize_points_vec;
use delaunay::point::Point2;

type Segment = ((u64, u64), (u64, u64));

fn pt(x: f64, y: f64) -> Point2 {
    Point2 { x: x.to_bits(), y: y.to_bits() }
}

fn coord(p: &Point2) -> robust::Coord<f64> {
    robust::Coord { x: f64::from_bits(p.x), y: f64::from_bits(p.y) }
}

fn evaluate(query: &Query) -> bool {
    match query {
        Query::CounterClockwise(a, b, c) => robust::orient2d(coord(a), coord(b), coord(c)) < 0.,
        Query::InCircle(a, b, c, d) => {
            robust::incircle(coord(a), coord(b), coord(c), coord(d)) < 0.
        }
    }
}

fn build(points: &mut Vec<Point2>) -> Triangulator {
    sanitize_points_vec(points).unwrap();
    let mut machine = Triangulator::new(points.clone()).unwrap();
    let mut steps = 0;
    while let Some(query) = machine.pending() {
        machine.answer(evaluate(&query));
        steps += 1;
        assert!(steps < 1_000_000);
    }
    machine
}

fn triangulate(points: &mut Vec<Point2>) -> Vec<(Point2, Point2)> {
    build(points).edges()
}

fn segment(a: (f64, f64), b: (f64, f64)) -> Segment {
    let ka = (a.0.to_bits(), a.1.to_bits());
    let kb = (b.0.to_bits(), b.1.to_bits());
    if ka <= kb {
        (ka, kb)
    } else {
        (kb, ka)
    }
}

fn undirected(lines: &Vec<(Point2, Point2)>) -> Vec<Segment> {
    let mut out: Vec<Segment> = Vec::new();
    for (a, b) in lines {
        let ka = (a.x, a.y);
        let kb = (b.x, b.y);
        out.push(if ka <= kb { (ka, kb) } else { (kb, ka) });
    }
    out.sort();
    out
}

fn expect(mut segments: Vec<Segment>) -> Vec<Segment> {
    segments.sort();
    segments
}

fn segments_join_points(machine: &Triangulator) {
    let points = machine.points();
    for (a, b) in machine.edges() {
        assert!(points.iter().any(|p| (p.x, p.y) == (a.x, a.y)));
        assert!(points.iter().any(|p| (p.x, p.y) == (b.x, b.y)));
    }
}

fn hull_edges_leave_the_ends(machine: &Triangulator) {
    let points = machine.points();
    if let Some(Ok((ldo, rdo))) = machine.outcome() {
        assert_eq!(ldo.org(machine.mesh()), points[0]);
        assert_eq!(rdo.org(machine.mesh()), points[points.len() - 1]);
    }
}

fn rings_close(machine: &Triangulator) {
    segments_join_points(machine);
    hull_edges_leave_the_ends(machine);
    let arena = machine.mesh();
    let bound = 2 * arena.len();
    for quad_edge in 0..arena.len() {
        for idx in 0..4 {
            let e = EdgeRef { quad_edge, idx };
            let mut at = e.onext(arena);
            assert_eq!(at.idx % 2, idx % 2);
            let mut steps = 1;
            while at != e {
                at = at.onext(arena);
                steps += 1;
                assert!(steps <= bound);
            }
            assert_eq!(e.onext(arena).rot().onext(arena).rot(), e);
        }
    }
}

#[test]
fn two_points_give_one_edge() {
    let mut points = vec![pt(1., 0.), pt(0., 0.)];
    let machine = build(&mut points);
    assert_eq!(points, vec![pt(0., 0.), pt(1., 0.)]);
    assert_eq!(
        undirected(&machine.edges()),
        expect(vec![segment((0., 0.), (1., 0.))])
    );
    let a = EdgeRef { quad_edge: 0, idx: 0 };
    assert_eq!(machine.outcome(), Some(Ok((a, a.sym()))));
    assert_eq!(machine.mesh().len(), 1);
    assert_eq!(machine.points(), &points);
}

#[test]
fn three_clockwise_points_give_a_triangle() {
    let mut points = vec![pt(0., 0.), pt(1., 0.), pt(1., 1.)];
    let machine = build(&mut points);
    assert_eq!(
        undirected(&machine.edges()),
        expect(vec![
            segment((0., 0.), (1., 0.)),
            segment((1., 0.), (1., 1.)),
            segment((1., 1.), (0., 0.)),
        ])
    );
    let c = EdgeRef { quad_edge: 2, idx: 0 };
    assert_eq!(machine.outcome(), Some(Ok((c.sym(), c))));
    rings_close(&machine);
}

#[test]
fn three_counter_clockwise_points_are_connected_from_the_first_edge_to_the_second() {
    let mut points = vec![pt(0., 0.), pt(1., 0.), pt(0., 1.)];
    let machine = build(&mut points);
    assert_eq!(points, vec![pt(0., 0.), pt(0., 1.), pt(1., 0.)]);
    // The new edge runs from the destination of the first edge to the origin
    // of the second, which are the same point.
    assert_eq!(
        undirected(&machine.edges()),
        expect(vec![
            segment((0., 0.), (0., 1.)),
            segment((0., 1.), (1., 0.)),
            segment((0., 1.), (0., 1.)),
        ])
    );
    let a = EdgeRef { quad_edge: 0, idx: 0 };
    let b = EdgeRef { quad_edge: 1, idx: 0 };
    assert_eq!(machine.outcome(), Some(Ok((a, b.sym()))));
    rings_close(&machine);
}

#[test]
fn unit_square_gets_one_diagonal() {
    let mut points = vec![pt(0., 0.), pt(1., 0.), pt(0., 1.), pt(1., 1.)];
    let lines = undirected(&triangulate(&mut points));
    assert_eq!(lines.len(), 5);
    for side in [
        segment((0., 0.), (1., 0.)),
        segment((1., 0.), (1., 1.)),
        segment((1., 1.), (0., 1.)),
        segment((0., 1.), (0., 0.)),
    ] {
        assert!(lines.contains(&side));
    }
    let first = lines.contains(&segment((0., 0.), (1., 1.)));
    let second = lines.contains(&segment((1., 0.), (0., 1.)));
    assert!(first != second);
}

#[test]
fn colinear_points_give_a_chain() {
    let mut points = vec![pt(0., 0.), pt(1., 0.), pt(2., 0.), pt(3., 0.)];
    let machine = build(&mut points);
    assert_eq!(
        undirected(&machine.edges()),
        expect(vec![
            segment((0., 0.), (1., 0.)),
            segment((1., 0.), (2., 0.)),
            segment((2., 0.), (3., 0.)),
        ])
    );
    rings_close(&machine);
}

#[test]
fn three_colinear_points_are_not_connected() {
    let mut points = vec![pt(2., 2.), pt(0., 0.), pt(1., 1.)];
    let machine = build(&mut points);
    assert_eq!(
        undirected(&machine.edges()),
        expect(vec![segment((0., 0.), (1., 1.)), segment((1., 1.), (2., 2.))])
    );
    let a = EdgeRef { quad_edge: 0, idx: 0 };
    let b = EdgeRef { quad_edge: 1, idx: 0 };
    assert_eq!(machine.outcome(), Some(Ok((a, b.sym()))));
}

#[test]
fn a_duplicate_point_changes_nothing() {
    let mut with = vec![pt(0., 0.), pt(1., 0.), pt(0., 1.), pt(0., 0.)];
    let mut without = vec![pt(0., 0.), pt(1., 0.), pt(0., 1.)];
    let lines = triangulate(&mut with);
    assert_eq!(with.len(), 3);
    assert_eq!(undirected(&lines), undirected(&triangulate(&mut without)));
}

#[test]
fn a_permutation_changes_nothing() {
    let points = vec![pt(0., 0.), pt(1., 0.), pt(2., 1.), pt(3., 0.), pt(4., 0.5), pt(5., -1.), pt(2.5, 3.)];
    let mut first = points.clone();
    let mut second = points.clone();
    second.reverse();
    let mut third = points.clone();
    third.rotate_left(3);
    third.swap(0, 5);
    let lines = undirected(&triangulate(&mut first));
    assert_eq!(lines, undirected(&triangulate(&mut second)));
    assert_eq!(lines, undirected(&triangulate(&mut third)));
}

#[test]
fn pentagon_gives_seven_segments_between_its_corners() {
    let mut points = Vec::new();
    for k in 0..5 {
        let angle = 2. * std::f64::consts::PI * (k as f64) / 5.;
        points.push(pt(angle.cos(), angle.sin()));
    }
    let machine = build(&mut points);
    let lines = machine.edges();
    assert_eq!(lines.len(), 7);
    for (a, b) in &lines {
        assert!(points.contains(a));
        assert!(points.contains(b));
    }
    rings_close(&machine);
}

#[test]
fn deleted_edges_are_not_emitted() {
    // Four points on the left and two far on the right: the merge deletes
    // edges of the left mesh.
    let mut points = Vec::new();
    for k in 0..40 {
        let angle = (k as f64) * 0.7;
        points.push(pt((k as f64) + angle.cos() * 3., angle.sin() * 10.));
    }
    let machine = build(&mut points);
    let arena = machine.mesh();
    let mut live = 0;
    let mut deleted = 0;
    for quad_edge in 0..arena.len() {
        let e = EdgeRef { quad_edge, idx: 0 };
        if e.quad_edge(arena).deleted {
            deleted += 1;
            assert_eq!(e.quad_edge(arena).get_points(), None);
        } else {
            live += 1;
            assert_eq!(e.quad_edge(arena).get_points(), Some(e.org_dest(arena)));
        }
    }
    assert!(deleted > 0);
    assert_eq!(machine.edges().len(), live);
    rings_close(&machine);
}

#[test]
fn fewer_than_two_points_are_refused() {
    assert_eq!(
        Triangulator::new(Vec::new()).err(),
        Some(TriangulationError::InsufficientPoints)
    );
    assert_eq!(
        Triangulator::new(vec![pt(1., 1.)]).err(),
        Some(TriangulationError::InsufficientPoints)
    );
    let mut points = vec![pt(1., 1.), pt(1., 1.), pt(1., 1.)];
    sanitize_points_vec(&mut points).unwrap();
    assert_eq!(
        Triangulator::new(points).err(),
        Some(TriangulationError::InsufficientPoints)
    );
    assert!(Triangulator::new(vec![pt(1., 1.), pt(2., 1.)]).is_ok());
}

#[test]
fn questions_come_in_the_order_of_the_construction() {
    let p0 = pt(0., 0.);
    let p1 = pt(0., 1.);
    let p2 = pt(1., 0.);
    let mut machine = Triangulator::new(vec![p0, p1, p2]).unwrap();
    assert_eq!(machine.outcome(), None);
    assert_eq!(machine.mesh().len(), 2);
    assert_eq!(machine.edges(), vec![(p0, p1), (p1, p2)]);
    match machine.pending() {
        Some(Query::CounterClockwise(a, b, c)) => assert_eq!((a, b, c), (p0, p1, p2)),
        other => panic!("{:?}", other),
    }
    machine.answer(false);
    assert_eq!(machine.outcome(), None);
    match machine.pending() {
        Some(Query::CounterClockwise(a, b, c)) => assert_eq!((a, b, c), (p0, p2, p1)),
        other => panic!("{:?}", other),
    }
    machine.answer(true);
    assert!(machine.pending().is_none());
    let c = EdgeRef { quad_edge: 2, idx: 0 };
    assert_eq!(machine.outcome(), Some(Ok((c.sym(), c))));
    assert_eq!(machine.edges(), vec![(p0, p1), (p1, p2), (p2, p0)]);
}

#[test]
fn merge_asks_for_the_tangent_then_for_the_candidates() {
    let p = [pt(0., 0.), pt(0., 1.), pt(1., 0.), pt(1., 1.)];
    let mut machine = Triangulator::new(p.to_vec()).unwrap();
    // Both halves are single edges; the search for the tangent starts.
    assert_eq!(machine.edges(), vec![(p[0], p[1]), (p[2], p[3])]);
    match machine.pending() {
        Some(Query::CounterClockwise(a, b, c)) => assert_eq!((a, b, c), (p[2], p[1], p[0])),
        other => panic!("{:?}", other),
    }
    machine.answer(false);
    match machine.pending() {
        Some(Query::CounterClockwise(a, b, c)) => assert_eq!((a, b, c), (p[1], p[3], p[2])),
        other => panic!("{:?}", other),
    }
    machine.answer(false);
    // The base joins the origin of the right edge to that of the left edge.
    assert_eq!(machine.edges(), vec![(p[0], p[1]), (p[2], p[3]), (p[2], p[1])]);
    match machine.pending() {
        Some(Query::CounterClockwise(_, b, c)) => assert_eq!((b, c), (p[1], p[2])),
        other => panic!("{:?}", other),
    }
}

#[test]
fn any_answers_keep_the_mesh_an_edge_algebra() {
    for pattern in [0u32, 1, 2, 3, 5, 0b1011, 0b110_1001, 0xdead_beef] {
        let mut points = Vec::new();
        for k in 0..11 {
            points.push(pt(k as f64, ((k * k) % 7) as f64));
        }
        let mut machine = Triangulator::new(points).unwrap();
        let mut steps = 0;
        let mut deleted: Vec<bool> = Vec::new();
        while machine.pending().is_some() && steps < 300 {
            machine.answer((pattern >> (steps % 32)) & 1 == 1);
            steps += 1;
            let arena = machine.mesh();
            assert!(arena.len() >= deleted.len());
            for (i, was) in deleted.iter().enumerate() {
                let now = EdgeRef { quad_edge: i, idx: 0 }.quad_edge(arena).deleted;
                assert!(now || !*was);
            }
            deleted = (0..arena.len())
                .map(|i| EdgeRef { quad_edge: i, idx: 0 }.quad_edge(arena).deleted)
                .collect();
        }
        rings_close(&machine);
        assert!(machine.edges().len() <= machine.mesh().len());
    }
}
