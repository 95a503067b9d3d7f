use delaunay::edge::connect;
use delaunay::edge::delete_edge;
use delaunay::edge::make_edge;
use delaunay::edge::splice;
use delaunay::edge::swap;
use delaunay::edge::EdgeRef;
use delaunay::edge::QuadEdgeArena;
use delaunay::point::Point2;

fn pt(x: f64, y: f64) -> Point2 {
    Point2 { x: x.to_bits(), y: y.to_bits() }
}

fn all_slots(arena: &QuadEdgeArena) -> Vec<EdgeRef> {
    let mut slots = Vec::new();
    for quad_edge in 0..arena.len() {
        for idx in 0..4 {
            slots.push(EdgeRef { quad_edge, idx });
        }
    }
    slots
}

fn links(arena: &QuadEdgeArena) -> Vec<EdgeRef> {
    all_slots(arena).iter().map(|e| e.onext(arena)).collect()
}

/// A triangle p0, p1, p2 built from three edges, and the edge from p0 to p1.
fn triangle(arena: &mut QuadEdgeArena) -> (EdgeRef, EdgeRef, EdgeRef) {
    let mut a = make_edge(arena);
    let mut b = make_edge(arena);
    splice(arena, a.sym(), b);
    a.set_org(arena, pt(0., 0.));
    a.set_dest(arena, pt(1., 0.));
    b.set_org(arena, pt(1., 0.));
    b.set_dest(arena, pt(1., 1.));
    let c = connect(arena, b, a);
    (a, b, c)
}

#[test]
fn create_edge() {
    let mut quad_arena = QuadEdgeArena::new();
    let edge_ref = make_edge(&mut quad_arena);
    println!("Edge ref: {}", edge_ref.to_string());
    assert_eq!(1, 1);
}

#[test]
fn edge_reference_is_shown_with_both_fields() {
    let mut quad_arena = QuadEdgeArena::new();
    let _ = make_edge(&mut quad_arena);
    let second = make_edge(&mut quad_arena);
    assert_eq!(second.rot().to_string(), "(Id: 1, Index: 1)");
    assert_eq!(EdgeRef { quad_edge: 0, idx: 3 }.to_string(), "(Id: 0, Index: 3)");
    assert_eq!(EdgeRef { quad_edge: 1203, idx: 2 }.to_string(), "(Id: 1203, Index: 2)");
    assert_eq!(EdgeRef { quad_edge: 10, idx: 0 }.to_string(), "(Id: 10, Index: 0)");
    let largest = EdgeRef { quad_edge: usize::MAX, idx: 9 };
    assert_eq!(largest.to_string(), format!("(Id: {}, Index: {})", usize::MAX, 9));
}

#[test]
fn numbers_are_written_in_decimal() {
    for n in [0usize, 1, 9, 10, 11, 99, 100, 101, 909, 1000, 65535, 4294967295, usize::MAX] {
        let mut text = String::from("n = ");
        delaunay::text::append_decimal(&mut text, n);
        assert_eq!(text, format!("n = {}", n));
    }
    for d in 0..10 {
        assert_eq!(delaunay::text::digit_text(d), format!("{}", d));
    }
}

#[test]
fn fresh_edge_has_the_initial_configuration() {
    let mut arena = QuadEdgeArena::new();
    let _ = make_edge(&mut arena);
    let e = make_edge(&mut arena);
    assert_eq!(e, EdgeRef { quad_edge: 1, idx: 0 });
    assert_eq!(arena.len(), 2);
    assert_eq!(e.onext(&arena), e);
    assert_eq!(e.rot().onext(&arena), e.inv_rot());
    assert_eq!(e.sym().onext(&arena), e.sym());
    assert_eq!(e.inv_rot().onext(&arena), e.rot());
    assert_eq!(e.org(&arena), Point2::default());
    assert_eq!(e.dest(&arena), Point2::default());
    assert_eq!(e.quad_edge(&arena).deleted, false);
    assert_eq!(e.quad_edge(&arena).get_points(), Some((pt(0., 0.), pt(0., 0.))));
}

#[test]
fn rotations_follow_the_algebra() {
    for idx in 0..4 {
        let e = EdgeRef { quad_edge: 7, idx };
        assert_eq!(e.sym().sym(), e);
        assert_eq!(e.rot().rot().rot().rot(), e);
        assert_eq!(e.inv_rot().rot(), e);
        assert_eq!(e.rot(), EdgeRef { quad_edge: 7, idx: (idx + 1) % 4 });
        assert_eq!(e.sym(), EdgeRef { quad_edge: 7, idx: (idx + 2) % 4 });
        assert_eq!(e.inv_rot(), EdgeRef { quad_edge: 7, idx: (idx + 3) % 4 });
    }
}

#[test]
fn origins_and_destinations_are_kept_per_slot() {
    let mut arena = QuadEdgeArena::new();
    let mut e = make_edge(&mut arena);
    e.set_org(&mut arena, pt(1., 2.));
    e.set_dest(&mut arena, pt(3., 4.));
    assert_eq!(e.org(&arena), pt(1., 2.));
    assert_eq!(e.dest(&arena), pt(3., 4.));
    assert_eq!(e.sym().org(&arena), pt(3., 4.));
    assert_eq!(e.org_dest(&arena), (pt(1., 2.), pt(3., 4.)));
    assert_eq!(e.raw_edge(&arena).origin, pt(1., 2.));
    e.raw_edge_mut(&mut arena).origin = pt(5., 6.);
    assert_eq!(e.org(&arena), pt(5., 6.));
    e.quad_edge_mut(&mut arena).deleted = true;
    assert_eq!(e.quad_edge(&arena).get_points(), None);
}

#[test]
fn set_onext_writes_one_slot() {
    let mut arena = QuadEdgeArena::new();
    let a = make_edge(&mut arena);
    let b = make_edge(&mut arena);
    let before = links(&arena);
    a.set_onext(&mut arena, b);
    let after = links(&arena);
    assert_eq!(after[0], b);
    assert_eq!(&after[1..], &before[1..]);
}

#[test]
fn splice_joins_two_rings() {
    let mut arena = QuadEdgeArena::new();
    let a = make_edge(&mut arena);
    let b = make_edge(&mut arena);
    splice(&mut arena, a.sym(), b);
    assert_eq!(a.sym().onext(&arena), b);
    assert_eq!(b.onext(&arena), a.sym());
    assert_eq!(a.lnext(&arena), b);
    assert_eq!(b.oprev(&arena), a.sym());
    assert_eq!(a.rprev(&arena), b);
    assert_eq!(a.onext(&arena), a);
}

#[test]
fn splice_twice_is_a_no_op() {
    let mut arena = QuadEdgeArena::new();
    let (a, b, c) = triangle(&mut arena);
    let d = make_edge(&mut arena);
    let before = links(&arena);
    for (x, y) in [(a, d), (b, c), (a.sym(), b.sym()), (d, d.sym()), (a.rot(), c.rot())] {
        splice(&mut arena, x, y);
        splice(&mut arena, x, y);
        assert_eq!(links(&arena), before);
    }
    splice(&mut arena, a, d);
    assert_ne!(links(&arena), before);
}

#[test]
fn connect_closes_a_triangle() {
    let mut arena = QuadEdgeArena::new();
    let (a, b, c) = triangle(&mut arena);
    assert_eq!(c, EdgeRef { quad_edge: 2, idx: 0 });
    assert_eq!(c.org(&arena), pt(1., 1.));
    assert_eq!(c.dest(&arena), pt(0., 0.));
    assert_eq!(a.lnext(&arena), b);
    assert_eq!(b.lnext(&arena), c);
    assert_eq!(c.lnext(&arena), a);
    assert_eq!(a.onext(&arena), c.sym());
    assert_eq!(c.sym().onext(&arena), a);
}

#[test]
fn onext_rings_close() {
    let mut arena = QuadEdgeArena::new();
    let _ = triangle(&mut arena);
    let bound = 2 * arena.len();
    for e in all_slots(&arena) {
        let mut at = e.onext(&arena);
        let mut steps = 1;
        while at != e {
            at = at.onext(&arena);
            steps += 1;
            assert!(steps <= bound);
        }
        assert_eq!(e.onext(&arena).oprev(&arena), e);
        assert_eq!(e.oprev(&arena).onext(&arena), e);
    }
}

#[test]
fn delete_edge_unlinks_and_marks() {
    let mut arena = QuadEdgeArena::new();
    let (a, b, c) = triangle(&mut arena);
    delete_edge(&mut arena, c);
    assert_eq!(arena.len(), 3);
    assert!(c.quad_edge(&arena).deleted);
    assert!(!a.quad_edge(&arena).deleted);
    assert_eq!(c.onext(&arena), c);
    assert_eq!(c.sym().onext(&arena), c.sym());
    assert_eq!(c.rot().onext(&arena), c.inv_rot());
    assert_eq!(c.inv_rot().onext(&arena), c.rot());
    assert_eq!(a.onext(&arena), a);
    assert_eq!(a.lnext(&arena), b);
    assert_eq!(b.sym().onext(&arena), b.sym());
    for e in all_slots(&arena) {
        if e.quad_edge != c.quad_edge {
            assert_ne!(e.onext(&arena).quad_edge, c.quad_edge);
        }
    }
}

#[test]
fn swap_turns_the_diagonal() {
    let mut arena = QuadEdgeArena::new();
    // The square 0,0 - 1,0 - 1,1 - 0,1 with the diagonal from 1,1 to 0,0.
    let (a, b, c) = triangle(&mut arena);
    let mut d = make_edge(&mut arena);
    d.set_org(&mut arena, pt(0., 0.));
    d.set_dest(&mut arena, pt(0., 1.));
    splice(&mut arena, d, a);
    let e = connect(&mut arena, d, c);
    assert_eq!(e.org(&arena), pt(0., 1.));
    assert_eq!(e.dest(&arena), pt(1., 1.));
    let mut diagonal = c;
    swap(&mut arena, &mut diagonal);
    assert_eq!(diagonal, c);
    let ends = c.org_dest(&arena);
    assert!(
        ends == (pt(1., 0.), pt(0., 1.)) || ends == (pt(0., 1.), pt(1., 0.)),
        "{:?}",
        ends
    );
    assert_eq!(a.org_dest(&arena), (pt(0., 0.), pt(1., 0.)));
    assert_eq!(b.org_dest(&arena), (pt(1., 0.), pt(1., 1.)));
    let bound = 2 * arena.len();
    for s in all_slots(&arena) {
        let mut at = s.onext(&arena);
        let mut steps = 1;
        while at != s {
            at = at.onext(&arena);
            steps += 1;
            assert!(steps <= bound);
        }
    }
}

#[test]
fn splice_merges_two_rings_and_splits_one() {
    let mut arena = QuadEdgeArena::new();
    let a = make_edge(&mut arena);
    let b = make_edge(&mut arena);
    let on_ring = |arena: &QuadEdgeArena, from: EdgeRef, to: EdgeRef| {
        let mut at = from;
        for _ in 0..8 {
            if at == to {
                return true;
            }
            at = at.onext(arena);
        }
        false
    };
    assert!(!on_ring(&arena, a, b));
    splice(&mut arena, a, b);
    assert!(on_ring(&arena, a, b));
    assert!(on_ring(&arena, b, a));
    splice(&mut arena, a, b);
    assert!(!on_ring(&arena, a, b));
    assert!(!on_ring(&arena, b, a));
}
