//! What the construction keeps, whatever the answers are.
//!
//! The state of a [`Triangulator`](crate::gns_delaunay::Triangulator) is in
//! order ([`state_ok`]) when its mesh is an edge algebra, every edge of the
//! mesh joins two of the points, every edge held outside the mesh is one of
//! its primal edges, and the hull edges held leave the first and the last
//! point of the range they belong to. This module proves that each step of
//! the construction keeps the state in order, keeps every record, and brings
//! no deleted record back.

use crate::algebra::edge_algebra;
use crate::algebra::lemma_connected;
use crate::algebra::lemma_connected_keeps_records;
use crate::algebra::lemma_edge_deleted_keeps_origins;
use crate::algebra::lemma_grown;
use crate::algebra::lemma_rotation_algebra;
use crate::algebra::lemma_spliced;
use crate::algebra::lemma_spliced_slots;
use crate::algebra::lemma_with_org;
use crate::algebra::origins_kept;
use crate::edge::EdgeRef;
use crate::edge::QuadEdge;
use crate::edge::connected;
use crate::edge::dest_of;
use crate::edge::edge_deleted;
use crate::edge::grown;
use crate::edge::in_mesh;
use crate::edge::next_edge;
use crate::edge::org_of;
use crate::edge::slot_of;
use crate::edge::spliced;
use crate::edge::well_linked;
use crate::edge::with_dest;
use crate::edge::with_org;
use crate::gns_delaunay::Frame;
use crate::gns_delaunay::MachineState;
use crate::gns_delaunay::Next;
use crate::gns_delaunay::Phase;
use crate::gns_delaunay::Task;
use crate::gns_delaunay::advance;
use crate::gns_delaunay::exhausted;
use crate::gns_delaunay::lemma_stack_weight_push;
use crate::gns_delaunay::middle;
use crate::gns_delaunay::query_of;
use crate::gns_delaunay::segments;
use crate::gns_delaunay::stack_weight;
use crate::gns_delaunay::tangent_found;
use crate::gns_delaunay::task_weight;
use crate::gns_delaunay::three_points;
use crate::gns_delaunay::two_points;
use crate::gns_delaunay::unwound;
use crate::point::Point2;
use crate::point::all_finite;
use crate::point::coincide;
use crate::point::lemma_sanitized_points_are_apart;
use crate::point::ordered;
use crate::point::spaced;
use vstd::prelude::*;

verus! {

/// `e` is a primal edge of a mesh of `len` records.
pub open spec fn edge_ok(len: nat, e: EdgeRef) -> bool {
    e.quad_edge < len && e.is_primal()
}

/// Every edge that the phase holds is a primal edge of the mesh.
pub open spec fn phase_ok(len: nat, phase: Phase) -> bool {
    match phase {
        Phase::TriangleFirst { a, b } => edge_ok(len, a) && edge_ok(len, b),
        Phase::TriangleSecond { a, b } => edge_ok(len, a) && edge_ok(len, b),
        Phase::TangentLeft { ldo, ldi, rdi, rdo } => edge_ok(len, ldo) && edge_ok(len, ldi)
            && edge_ok(len, rdi) && edge_ok(len, rdo),
        Phase::TangentRight { ldo, ldi, rdi, rdo } => edge_ok(len, ldo) && edge_ok(len, ldi)
            && edge_ok(len, rdi) && edge_ok(len, rdo),
        Phase::LeftValid { ldo, rdo, basel, lcand } => edge_ok(len, ldo) && edge_ok(len, rdo)
            && edge_ok(len, basel) && edge_ok(len, lcand),
        Phase::LeftCircle { ldo, rdo, basel, lcand } => edge_ok(len, ldo) && edge_ok(len, rdo)
            && edge_ok(len, basel) && edge_ok(len, lcand),
        Phase::RightValid { ldo, rdo, basel, lcand, rcand } => edge_ok(len, ldo) && edge_ok(
            len,
            rdo,
        ) && edge_ok(len, basel) && edge_ok(len, lcand) && edge_ok(len, rcand),
        Phase::RightCircle { ldo, rdo, basel, lcand, rcand } => edge_ok(len, ldo) && edge_ok(
            len,
            rdo,
        ) && edge_ok(len, basel) && edge_ok(len, lcand) && edge_ok(len, rcand),
        Phase::DecideLeft { ldo, rdo, basel, lcand, rcand } => edge_ok(len, ldo) && edge_ok(
            len,
            rdo,
        ) && edge_ok(len, basel) && edge_ok(len, lcand) && edge_ok(len, rcand),
        Phase::DecideRight { ldo, rdo, basel, lcand, rcand, left_valid } => edge_ok(len, ldo)
            && edge_ok(len, rdo) && edge_ok(len, basel) && edge_ok(len, lcand) && edge_ok(
            len,
            rcand,
        ),
        Phase::DecideCircle { ldo, rdo, basel, lcand, rcand } => edge_ok(len, ldo) && edge_ok(
            len,
            rdo,
        ) && edge_ok(len, basel) && edge_ok(len, lcand) && edge_ok(len, rcand),
        Phase::Done { ldo, rdo } => edge_ok(len, ldo) && edge_ok(len, rdo),
        Phase::Exhausted => true,
    }
}

/// The frame is a merge of at least four of the `n` points, and every edge
/// it holds is a primal edge of the mesh.
pub open spec fn frame_ok(len: nat, n: nat, frame: Frame) -> bool {
    match frame {
        Frame::AwaitLeft { lo, hi } => lo + 4 <= hi <= n,
        Frame::AwaitRight { lo, hi, ldo, ldi } => lo + 4 <= hi <= n && edge_ok(len, ldo)
            && edge_ok(len, ldi),
    }
}

/// Every frame of the stack is in order.
pub open spec fn stack_ok(len: nat, n: nat, stack: Seq<Frame>) -> bool {
    forall|i: int| 0 <= i < stack.len() ==> frame_ok(len, n, #[trigger] stack[i])
}

/// The task is over at least two of the `n` points, or hands back primal
/// edges of the mesh.
pub open spec fn task_ok(len: nat, n: nat, task: Task) -> bool {
    match task {
        Task::Start { lo, hi } => lo + 2 <= hi <= n,
        Task::Return { left, right } => edge_ok(len, left) && edge_ok(len, right),
    }
}

/// What an answer leads to is in order.
pub open spec fn next_ok(len: nat, next: Next) -> bool {
    match next {
        Next::Wait(phase) => phase_ok(len, phase),
        Next::Return(left, right) => edge_ok(len, left) && edge_ok(len, right),
    }
}

/// Every primal edge of the mesh has one of the points as its origin, so
/// that every edge joins two of the points.
pub open spec fn endpoints_ok(q: Seq<QuadEdge>, points: Seq<Point2>) -> bool {
    forall|e: EdgeRef| in_mesh(q, e) && e.is_primal() ==> points.contains(#[trigger] org_of(q, e))
}

/// No record of `before` is missing in `after`, and none that was deleted is
/// live again.
pub open spec fn marks_kept(before: Seq<QuadEdge>, after: Seq<QuadEdge>) -> bool {
    &&& before.len() <= after.len()
    &&& forall|i: int| 0 <= i < before.len() && before[i].deleted ==> (#[trigger] after[i]).deleted
}

/// The state is in order: the mesh is an edge algebra whose edges join
/// points of the list, every edge held outside it is one of its primal
/// edges, and the hull edges held leave the first and the last point of
/// their range.
pub open spec fn state_ok(s: MachineState) -> bool {
    &&& edge_algebra(s.mesh)
    &&& s.mesh.len() <= usize::MAX
    &&& endpoints_ok(s.mesh, s.points)
    &&& stack_ok(s.mesh.len(), s.points.len(), s.stack)
    &&& phase_ok(s.mesh.len(), s.phase)
    &&& ranges_ok(s.stack, s.points.len())
    &&& hull_frames_ok(s.mesh, s.points, s.stack)
    &&& hull_phase_ok(s.mesh, s.points, s.stack, s.phase)
}

/// Connect keeps the edges between points of the list, and keeps every
/// deletion mark.
pub proof fn lemma_connected_keeps_endpoints(
    q: Seq<QuadEdge>,
    points: Seq<Point2>,
    a: EdgeRef,
    b: EdgeRef,
)
    requires
        well_linked(q),
        edge_ok(q.len(), a),
        edge_ok(q.len(), b),
        endpoints_ok(q, points),
        q.len() < usize::MAX,
    ensures
        endpoints_ok(connected(q, a, b), points),
        marks_kept(q, connected(q, a, b)),
{
    lemma_connected(q, a, b);
    lemma_connected_keeps_records(q, a, b);
    let r = connected(q, a, b);
    let e = next_edge(q);
    assert(in_mesh(q, a.sym()) && a.sym().is_primal());
    assert(points.contains(org_of(q, a.sym())));
    assert(points.contains(org_of(q, b)));
    assert forall|x: EdgeRef| in_mesh(r, x) && x.is_primal() implies points.contains(
        #[trigger] org_of(r, x),
    ) by {
        if in_mesh(q, x) {
            assert(org_of(r, x) == org_of(q, x));
        } else {
            assert(x == e || x == e.sym());
        }
    }
}

/// DeleteEdge keeps the edges between points of the list, and keeps every
/// deletion mark.
pub proof fn lemma_edge_deleted_keeps_endpoints(q: Seq<QuadEdge>, points: Seq<Point2>, e: EdgeRef)
    requires
        well_linked(q),
        in_mesh(q, e),
        endpoints_ok(q, points),
    ensures
        endpoints_ok(edge_deleted(q, e), points),
        marks_kept(q, edge_deleted(q, e)),
{
    lemma_edge_deleted_keeps_origins(q, e);
    let r = edge_deleted(q, e);
    assert forall|x: EdgeRef| in_mesh(r, x) && x.is_primal() implies points.contains(
        #[trigger] org_of(r, x),
    ) by {
        assert(org_of(r, x) == org_of(q, x));
    }
}

/// Whatever the answer, the edges stay between points of the list, no
/// record goes away, and no deleted record comes back.
pub proof fn lemma_advance_keeps_endpoints(
    q: Seq<QuadEdge>,
    points: Seq<Point2>,
    phase: Phase,
    yes: bool,
)
    requires
        edge_algebra(q),
        phase_ok(q.len(), phase),
        endpoints_ok(q, points),
        q.len() < usize::MAX,
    ensures
        endpoints_ok(advance(q, phase, yes).0, points),
        marks_kept(q, advance(q, phase, yes).0),
{
    match phase {
        Phase::TriangleFirst { a, b } => {
            lemma_connected_keeps_endpoints(q, points, a, b);
        },
        Phase::TriangleSecond { a, b } => {
            lemma_connected_keeps_endpoints(q, points, b, a);
        },
        Phase::TangentRight { ldo, ldi, rdi, rdo } => {
            lemma_rotation_algebra(rdi);
            lemma_connected_keeps_endpoints(q, points, rdi.sym(), ldi);
        },
        Phase::LeftCircle { ldo, rdo, basel, lcand } => {
            lemma_edge_deleted_keeps_endpoints(q, points, lcand);
        },
        Phase::RightCircle { ldo, rdo, basel, lcand, rcand } => {
            lemma_edge_deleted_keeps_endpoints(q, points, rcand);
        },
        Phase::DecideRight { ldo, rdo, basel, lcand, rcand, left_valid } => {
            lemma_rotation_algebra(basel);
            lemma_rotation_algebra(lcand);
            lemma_connected_keeps_endpoints(q, points, rcand, basel.sym());
            lemma_connected_keeps_endpoints(q, points, basel.sym(), lcand.sym());
        },
        Phase::DecideCircle { ldo, rdo, basel, lcand, rcand } => {
            lemma_rotation_algebra(basel);
            lemma_rotation_algebra(lcand);
            lemma_connected_keeps_endpoints(q, points, rcand, basel.sym());
            lemma_connected_keeps_endpoints(q, points, basel.sym(), lcand.sym());
        },
        _ => {},
    }
}

/// The base case of two points joins two points of the list.
pub proof fn lemma_two_points_keeps_endpoints(
    q: Seq<QuadEdge>,
    points: Seq<Point2>,
    p0: Point2,
    p1: Point2,
)
    requires
        endpoints_ok(q, points),
        points.contains(p0),
        points.contains(p1),
        q.len() < usize::MAX,
    ensures
        endpoints_ok(two_points(q, p0, p1), points),
        marks_kept(q, two_points(q, p0, p1)),
        origins_kept(q, two_points(q, p0, p1)),
        org_of(two_points(q, p0, p1), next_edge(q)) == p0,
        dest_of(two_points(q, p0, p1), next_edge(q)) == p1,
{
    reveal(two_points);
    let a = next_edge(q);
    let q1 = grown(q);
    lemma_grown(q);
    let q2 = with_org(q1, a, p0);
    lemma_with_org(q1, a, p0);
    let r = two_points(q, p0, p1);
    lemma_with_org(q2, a.sym(), p1);
    assert forall|x: EdgeRef| in_mesh(r, x) && x.is_primal() implies points.contains(
        #[trigger] org_of(r, x),
    ) by {
        assert(org_of(q2, x) == if x == a {
            p0
        } else {
            org_of(q1, x)
        });
        if in_mesh(q, x) {
            assert(slot_of(q1, x) == slot_of(q, x));
            assert(points.contains(org_of(q, x)));
        } else {
            assert(x == a || x == a.sym());
        }
    }
    assert forall|i: int| 0 <= i < q.len() && q[i].deleted implies (#[trigger] r[i]).deleted by {
        assert(q1[i] == q[i]);
        assert(q2[i].deleted == q1[i].deleted);
    }
    assert forall|x: EdgeRef| in_mesh(q, x) implies #[trigger] org_of(r, x) == org_of(q, x) by {
        assert(slot_of(q1, x) == slot_of(q, x));
        assert(org_of(q2, x) == org_of(q1, x));
    }
    assert(org_of(q2, a) == p0);
}

/// The base case of three points joins points of the list.
pub proof fn lemma_three_points_keeps_endpoints(
    q: Seq<QuadEdge>,
    points: Seq<Point2>,
    p0: Point2,
    p1: Point2,
    p2: Point2,
)
    requires
        well_linked(q),
        endpoints_ok(q, points),
        points.contains(p0),
        points.contains(p1),
        points.contains(p2),
        q.len() + 1 < usize::MAX,
    ensures
        endpoints_ok(three_points(q, p0, p1, p2), points),
        marks_kept(q, three_points(q, p0, p1, p2)),
        origins_kept(q, three_points(q, p0, p1, p2)),
        org_of(three_points(q, p0, p1, p2), next_edge(q)) == p0,
        dest_of(three_points(q, p0, p1, p2), next_edge(grown(q))) == p2,
{
    reveal(three_points);
    let a = next_edge(q);
    let q1 = grown(q);
    lemma_grown(q);
    let b = next_edge(q1);
    let q2 = grown(q1);
    lemma_grown(q1);
    let q3 = spliced(q2, a.sym(), b);
    lemma_spliced(q2, a.sym(), b);
    lemma_spliced_slots(q2, a.sym(), b);
    let q4 = with_org(q3, a, p0);
    lemma_with_org(q3, a, p0);
    let q5 = with_org(q4, b, p1);
    lemma_with_org(q4, b, p1);
    let q6 = with_dest(q5, a, p1);
    lemma_with_org(q5, a.sym(), p1);
    let r = three_points(q, p0, p1, p2);
    lemma_with_org(q6, b.sym(), p2);
    assert forall|x: EdgeRef| in_mesh(r, x) && x.is_primal() implies points.contains(
        #[trigger] org_of(r, x),
    ) by {
        assert(org_of(q4, x) == if x == a {
            p0
        } else {
            org_of(q3, x)
        });
        assert(org_of(q5, x) == if x == b {
            p1
        } else {
            org_of(q4, x)
        });
        assert(org_of(q6, x) == if x == a.sym() {
            p1
        } else {
            org_of(q5, x)
        });
        if in_mesh(q, x) {
            assert(slot_of(q1, x) == slot_of(q, x));
            assert(slot_of(q2, x) == slot_of(q1, x));
            assert(org_of(q3, x) == org_of(q2, x));
            assert(points.contains(org_of(q, x)));
        } else {
            assert(x == a || x == a.sym() || x == b || x == b.sym());
        }
    }
    assert forall|i: int| 0 <= i < q.len() && q[i].deleted implies (#[trigger] r[i]).deleted by {
        assert(q1[i] == q[i]);
        assert(q2[i] == q1[i]);
        assert(q3[i].deleted == q2[i].deleted);
        assert(q4[i].deleted == q3[i].deleted);
        assert(q5[i].deleted == q4[i].deleted);
        assert(q6[i].deleted == q5[i].deleted);
    }
    assert forall|x: EdgeRef| in_mesh(q, x) implies #[trigger] org_of(r, x) == org_of(q, x) by {
        assert(slot_of(q1, x) == slot_of(q, x));
        assert(slot_of(q2, x) == slot_of(q1, x));
        assert(org_of(q3, x) == org_of(q2, x));
        assert(org_of(q4, x) == org_of(q3, x));
        assert(org_of(q5, x) == org_of(q4, x));
        assert(org_of(q6, x) == org_of(q5, x));
    }
    assert(org_of(q4, a) == p0);
    assert(org_of(q5, a) == org_of(q4, a));
    assert(org_of(q6, a) == org_of(q5, a));
    assert(org_of(r, b.sym()) == p2);
}

/// Every segment of a mesh whose edges join points of the list joins two
/// points of the list.
pub proof fn lemma_segments_join_points(q: Seq<QuadEdge>, points: Seq<Point2>)
    requires
        endpoints_ok(q, points),
        q.len() <= usize::MAX,
    ensures
        segments(q).len() <= q.len(),
        forall|k: int|
            0 <= k < segments(q).len() ==> points.contains((#[trigger] segments(q)[k]).0)
                && points.contains(segments(q)[k].1),
    decreases q.len(),
{
    if q.len() > 0 {
        let front = q.drop_last();
        assert forall|e: EdgeRef| in_mesh(front, e) && e.is_primal() implies points.contains(
            #[trigger] org_of(front, e),
        ) by {
            assert(org_of(front, e) == org_of(q, e));
        }
        lemma_segments_join_points(front, points);
        let e = EdgeRef { quad_edge: (q.len() - 1) as usize, idx: 0 };
        assert(in_mesh(q, e) && in_mesh(q, e.sym()));
        assert(points.contains(org_of(q, e)));
        assert(points.contains(org_of(q, e.sym())));
    }
}

/// The range of points that the construction is at work on: the half that
/// the merge on top of the stack waits for, or all `n` points when no merge
/// waits.
pub open spec fn active_range(stack: Seq<Frame>, n: nat) -> (int, int) {
    if stack.len() == 0 {
        (0, n as int)
    } else {
        match stack.last() {
            Frame::AwaitLeft { lo, hi } => (lo as int, middle(lo, hi) as int),
            Frame::AwaitRight { lo, hi, ldo, ldi } => (middle(lo, hi) as int, hi as int),
        }
    }
}

/// The range of points that a merge is over.
pub open spec fn frame_range(frame: Frame) -> (int, int) {
    match frame {
        Frame::AwaitLeft { lo, hi } => (lo as int, hi as int),
        Frame::AwaitRight { lo, hi, ldo, ldi } => (lo as int, hi as int),
    }
}

/// Each merge of the stack is over the half that the merge below it waits
/// for, and the lowest one is over all `n` points.
pub open spec fn ranges_ok(stack: Seq<Frame>, n: nat) -> bool {
    forall|i: int|
        0 <= i < stack.len() ==> frame_range(#[trigger] stack[i]) == active_range(stack.take(i), n)
}

/// `left` leaves the first point of the range and `right` the last one.
pub open spec fn hull_ends(
    q: Seq<QuadEdge>,
    points: Seq<Point2>,
    range: (int, int),
    left: EdgeRef,
    right: EdgeRef,
) -> bool {
    &&& 0 <= range.0 < range.1 <= points.len()
    &&& coincide(org_of(q, left), points[range.0])
    &&& coincide(org_of(q, right), points[range.1 - 1])
}

/// The hull edge `ldo` of each left half that is built leaves the first
/// point of its merge.
pub open spec fn hull_frames_ok(q: Seq<QuadEdge>, points: Seq<Point2>, stack: Seq<Frame>) -> bool {
    forall|i: int|
        0 <= i < stack.len() ==> match #[trigger] stack[i] {
            Frame::AwaitLeft { lo, hi } => true,
            Frame::AwaitRight { lo, hi, ldo, ldi } => coincide(org_of(q, ldo), points[lo as int]),
        }
}

/// The hull edges that the phase holds leave the first and the last point of
/// the range at work. At the end that range is the whole list.
pub open spec fn hull_phase_ok(
    q: Seq<QuadEdge>,
    points: Seq<Point2>,
    stack: Seq<Frame>,
    phase: Phase,
) -> bool {
    let range = active_range(stack, points.len());
    match phase {
        Phase::TriangleFirst { a, b } => hull_ends(q, points, range, a, b.sym()),
        Phase::TriangleSecond { a, b } => hull_ends(q, points, range, a, b.sym()),
        Phase::TangentLeft { ldo, ldi, rdi, rdo } => hull_ends(q, points, range, ldo, rdo),
        Phase::TangentRight { ldo, ldi, rdi, rdo } => hull_ends(q, points, range, ldo, rdo),
        Phase::LeftValid { ldo, rdo, basel, lcand } => hull_ends(q, points, range, ldo, rdo),
        Phase::LeftCircle { ldo, rdo, basel, lcand } => hull_ends(q, points, range, ldo, rdo),
        Phase::RightValid { ldo, rdo, basel, lcand, rcand } => hull_ends(
            q,
            points,
            range,
            ldo,
            rdo,
        ),
        Phase::RightCircle { ldo, rdo, basel, lcand, rcand } => hull_ends(
            q,
            points,
            range,
            ldo,
            rdo,
        ),
        Phase::DecideLeft { ldo, rdo, basel, lcand, rcand } => hull_ends(
            q,
            points,
            range,
            ldo,
            rdo,
        ),
        Phase::DecideRight { ldo, rdo, basel, lcand, rcand, left_valid } => hull_ends(
            q,
            points,
            range,
            ldo,
            rdo,
        ),
        Phase::DecideCircle { ldo, rdo, basel, lcand, rcand } => hull_ends(
            q,
            points,
            range,
            ldo,
            rdo,
        ),
        Phase::Done { ldo, rdo } => stack.len() == 0 && hull_ends(q, points, range, ldo, rdo),
        Phase::Exhausted => true,
    }
}

/// What an answer leads to holds hull edges that leave the first and the
/// last point of the range at work.
pub open spec fn hull_next_ok(
    q: Seq<QuadEdge>,
    points: Seq<Point2>,
    stack: Seq<Frame>,
    next: Next,
) -> bool {
    match next {
        Next::Wait(phase) => !(phase is Done) && hull_phase_ok(q, points, stack, phase),
        Next::Return(left, right) => hull_ends(
            q,
            points,
            active_range(stack, points.len()),
            left,
            right,
        ),
    }
}

/// The hull edges of the halves that are built stay where they are when the
/// mesh keeps its records.
pub proof fn lemma_hull_frames_kept(
    q: Seq<QuadEdge>,
    m: Seq<QuadEdge>,
    points: Seq<Point2>,
    stack: Seq<Frame>,
)
    requires
        origins_kept(q, m),
        stack_ok(q.len(), points.len(), stack),
        hull_frames_ok(q, points, stack),
    ensures
        hull_frames_ok(m, points, stack),
{
    assert forall|i: int| 0 <= i < stack.len() implies match #[trigger] stack[i] {
        Frame::AwaitLeft { lo, hi } => true,
        Frame::AwaitRight { lo, hi, ldo, ldi } => coincide(org_of(m, ldo), points[lo as int]),
    } by {
        assert(frame_ok(q.len(), points.len(), stack[i]));
        match stack[i] {
            Frame::AwaitLeft { lo, hi } => {},
            Frame::AwaitRight { lo, hi, ldo, ldi } => {
                assert(in_mesh(q, ldo));
                assert(org_of(m, ldo) == org_of(q, ldo));
            },
        }
    }
}

/// Connect leaves the hull edges where they are.
pub proof fn lemma_connected_keeps_hull_ends(
    q: Seq<QuadEdge>,
    points: Seq<Point2>,
    range: (int, int),
    a: EdgeRef,
    b: EdgeRef,
    left: EdgeRef,
    right: EdgeRef,
)
    requires
        well_linked(q),
        in_mesh(q, a),
        in_mesh(q, b),
        in_mesh(q, left),
        in_mesh(q, right),
        hull_ends(q, points, range, left, right),
        q.len() < usize::MAX,
    ensures
        origins_kept(q, connected(q, a, b)),
        hull_ends(connected(q, a, b), points, range, left, right),
{
    lemma_connected_keeps_records(q, a, b);
    let m = connected(q, a, b);
    assert(org_of(m, left) == org_of(q, left));
    assert(org_of(m, right) == org_of(q, right));
}

/// DeleteEdge leaves the hull edges where they are.
pub proof fn lemma_edge_deleted_keeps_hull_ends(
    q: Seq<QuadEdge>,
    points: Seq<Point2>,
    range: (int, int),
    e: EdgeRef,
    left: EdgeRef,
    right: EdgeRef,
)
    requires
        well_linked(q),
        in_mesh(q, e),
        in_mesh(q, left),
        in_mesh(q, right),
        hull_ends(q, points, range, left, right),
    ensures
        origins_kept(q, edge_deleted(q, e)),
        hull_ends(edge_deleted(q, e), points, range, left, right),
{
    lemma_edge_deleted_keeps_origins(q, e);
    let m = edge_deleted(q, e);
    assert(org_of(m, left) == org_of(q, left));
    assert(org_of(m, right) == org_of(q, right));
}

/// The base that joins the two halves leaves the hull edges where they are,
/// or takes the place of one that leaves the same point.
pub proof fn lemma_tangent_found_keeps_hull_ends(
    q: Seq<QuadEdge>,
    points: Seq<Point2>,
    range: (int, int),
    ldo: EdgeRef,
    ldi: EdgeRef,
    rdi: EdgeRef,
    rdo: EdgeRef,
)
    requires
        well_linked(q),
        in_mesh(q, ldo),
        in_mesh(q, ldi),
        in_mesh(q, rdi),
        in_mesh(q, rdo),
        hull_ends(q, points, range, ldo, rdo),
        q.len() < usize::MAX,
    ensures
        origins_kept(q, tangent_found(q, ldo, ldi, rdi, rdo).0),
        match tangent_found(q, ldo, ldi, rdi, rdo).1 {
            Next::Wait(Phase::LeftValid { ldo: left, rdo: right, basel, lcand }) => hull_ends(
                tangent_found(q, ldo, ldi, rdi, rdo).0,
                points,
                range,
                left,
                right,
            ),
            _ => false,
        },
{
    lemma_rotation_algebra(rdi);
    lemma_connected_keeps_records(q, rdi.sym(), ldi);
    lemma_connected(q, rdi.sym(), ldi);
    let m = connected(q, rdi.sym(), ldi);
    let basel = next_edge(q);
    assert(org_of(m, basel) == org_of(q, rdi));
    assert(org_of(m, basel.sym()) == org_of(q, ldi));
    assert(org_of(m, ldi) == org_of(q, ldi));
    assert(org_of(m, ldo) == org_of(q, ldo));
    assert(org_of(m, rdi) == org_of(q, rdi));
    assert(org_of(m, rdo) == org_of(q, rdo));
}


#[verifier::rlimit(30)]


proof fn lemma_triangle_keeps_hull(
    q: Seq<QuadEdge>,
    points: Seq<Point2>,
    stack: Seq<Frame>,
    phase: Phase,
    yes: bool,
)
    requires
        edge_algebra(q),
        phase_ok(q.len(), phase),
        hull_phase_ok(q, points, stack, phase),
        q.len() < usize::MAX,
        phase is TriangleFirst || phase is TriangleSecond,
    ensures
        origins_kept(q, advance(q, phase, yes).0),
        hull_next_ok(advance(q, phase, yes).0, points, stack, advance(q, phase, yes).1),
{
    let range = active_range(stack, points.len());
    match phase {
        Phase::TriangleFirst { a, b } => {
            lemma_rotation_algebra(b);
            if yes {
                lemma_connected_keeps_hull_ends(q, points, range, a, b, a, b.sym());
            }
        },
        Phase::TriangleSecond { a, b } => {
            lemma_rotation_algebra(b);
            if yes {
                lemma_connected_keeps_hull_ends(q, points, range, b, a, a, b.sym());
                lemma_connected(q, b, a);
            }
        },
        _ => {},
    }
}


proof fn lemma_tangent_keeps_hull(
    q: Seq<QuadEdge>,
    points: Seq<Point2>,
    stack: Seq<Frame>,
    phase: Phase,
    yes: bool,
)
    requires
        edge_algebra(q),
        phase_ok(q.len(), phase),
        hull_phase_ok(q, points, stack, phase),
        q.len() < usize::MAX,
        phase is TangentLeft || phase is TangentRight,
    ensures
        origins_kept(q, advance(q, phase, yes).0),
        hull_next_ok(advance(q, phase, yes).0, points, stack, advance(q, phase, yes).1),
{
    let range = active_range(stack, points.len());
    match phase {
        Phase::TangentRight { ldo, ldi, rdi, rdo } => {
            if !yes {
                lemma_tangent_found_keeps_hull_ends(q, points, range, ldo, ldi, rdi, rdo);
            }
        },
        _ => {},
    }
}


proof fn lemma_candidates_keep_hull(
    q: Seq<QuadEdge>,
    points: Seq<Point2>,
    stack: Seq<Frame>,
    phase: Phase,
    yes: bool,
)
    requires
        edge_algebra(q),
        phase_ok(q.len(), phase),
        hull_phase_ok(q, points, stack, phase),
        q.len() < usize::MAX,
        phase is LeftValid || phase is LeftCircle || phase is RightValid || phase is RightCircle
            || phase is DecideLeft,
    ensures
        origins_kept(q, advance(q, phase, yes).0),
        hull_next_ok(advance(q, phase, yes).0, points, stack, advance(q, phase, yes).1),
{
    let range = active_range(stack, points.len());
    match phase {
        Phase::LeftCircle { ldo, rdo, basel, lcand } => {
            if yes {
                lemma_edge_deleted_keeps_hull_ends(q, points, range, lcand, ldo, rdo);
            }
        },
        Phase::RightCircle { ldo, rdo, basel, lcand, rcand } => {
            if yes {
                lemma_edge_deleted_keeps_hull_ends(q, points, range, rcand, ldo, rdo);
            }
        },
        _ => {},
    }
}


#[verifier::rlimit(30)]


proof fn lemma_decision_keeps_hull(
    q: Seq<QuadEdge>,
    points: Seq<Point2>,
    stack: Seq<Frame>,
    phase: Phase,
    yes: bool,
)
    requires
        edge_algebra(q),
        phase_ok(q.len(), phase),
        hull_phase_ok(q, points, stack, phase),
        q.len() < usize::MAX,
        phase is DecideRight || phase is DecideCircle,
    ensures
        origins_kept(q, advance(q, phase, yes).0),
        hull_next_ok(advance(q, phase, yes).0, points, stack, advance(q, phase, yes).1),
{
    let range = active_range(stack, points.len());
    match phase {
        Phase::DecideRight { ldo, rdo, basel, lcand, rcand, left_valid } => {
            lemma_rotation_algebra(basel);
            lemma_rotation_algebra(lcand);
            if !left_valid && yes {
                lemma_connected_keeps_hull_ends(q, points, range, rcand, basel.sym(), ldo, rdo);
            } else if left_valid && !yes {
                lemma_connected_keeps_hull_ends(
                    q,
                    points,
                    range,
                    basel.sym(),
                    lcand.sym(),
                    ldo,
                    rdo,
                );
            }
        },
        Phase::DecideCircle { ldo, rdo, basel, lcand, rcand } => {
            lemma_rotation_algebra(basel);
            lemma_rotation_algebra(lcand);
            if yes {
                lemma_connected_keeps_hull_ends(q, points, range, rcand, basel.sym(), ldo, rdo);
            } else {
                lemma_connected_keeps_hull_ends(
                    q,
                    points,
                    range,
                    basel.sym(),
                    lcand.sym(),
                    ldo,
                    rdo,
                );
            }
        },
        _ => {},
    }
}

/// Whatever the answer, the hull edges go on leaving the first and the last
/// point of the range at work.
pub proof fn lemma_advance_keeps_hull(
    q: Seq<QuadEdge>,
    points: Seq<Point2>,
    stack: Seq<Frame>,
    phase: Phase,
    yes: bool,
)
    requires
        edge_algebra(q),
        phase_ok(q.len(), phase),
        hull_phase_ok(q, points, stack, phase),
        q.len() < usize::MAX,
        query_of(q, phase) is Some,
    ensures
        origins_kept(q, advance(q, phase, yes).0),
        hull_next_ok(advance(q, phase, yes).0, points, stack, advance(q, phase, yes).1),
{
    if phase is TriangleFirst || phase is TriangleSecond {
        lemma_triangle_keeps_hull(q, points, stack, phase, yes);
    } else if phase is TangentLeft || phase is TangentRight {
        lemma_tangent_keeps_hull(q, points, stack, phase, yes);
    } else if phase is DecideRight || phase is DecideCircle {
        lemma_decision_keeps_hull(q, points, stack, phase, yes);
    } else {
        lemma_candidates_keep_hull(q, points, stack, phase, yes);
    }
}

/// The task is over the range at work, or hands back hull edges that leave
/// the first and the last point of that range.
pub open spec fn hull_task_ok(
    q: Seq<QuadEdge>,
    points: Seq<Point2>,
    stack: Seq<Frame>,
    task: Task,
) -> bool {
    match task {
        Task::Start { lo, hi } => (lo as int, hi as int) == active_range(stack, points.len()),
        Task::Return { left, right } => hull_ends(
            q,
            points,
            active_range(stack, points.len()),
            left,
            right,
        ),
    }
}

/// A merge over the range at work can be put on the stack.
pub proof fn lemma_ranges_ok_push(stack: Seq<Frame>, n: nat, frame: Frame)
    requires
        ranges_ok(stack, n),
        frame_range(frame) == active_range(stack, n),
    ensures
        ranges_ok(stack.push(frame), n),
{
    let longer = stack.push(frame);
    assert forall|i: int| 0 <= i < longer.len() implies frame_range(#[trigger] longer[i])
        == active_range(longer.take(i), n) by {
        assert(longer.take(i) =~= stack.take(i));
        if i < stack.len() {
            assert(longer[i] == stack[i]);
        } else {
            assert(stack.take(i) =~= stack);
        }
    }
}

/// The merge on top of the stack is over the range that is at work once it
/// is taken off.
pub proof fn lemma_ranges_ok_pop(stack: Seq<Frame>, n: nat)
    requires
        ranges_ok(stack, n),
        stack.len() > 0,
    ensures
        ranges_ok(stack.drop_last(), n),
        frame_range(stack.last()) == active_range(stack.drop_last(), n),
{
    let shorter = stack.drop_last();
    assert forall|i: int| 0 <= i < shorter.len() implies frame_range(#[trigger] shorter[i])
        == active_range(shorter.take(i), n) by {
        assert(shorter.take(i) =~= stack.take(i));
        assert(shorter[i] == stack[i]);
    }
    assert(stack.take(stack.len() - 1) =~= shorter);
    assert(frame_range(stack[stack.len() - 1]) == active_range(stack.take(stack.len() - 1), n));
}

/// The construction is in order between two questions: the mesh is an edge
/// algebra whose edges join points of the list, the stack is in order, and
/// the task is over the range at work.
pub open spec fn unwinding_ok(
    q: Seq<QuadEdge>,
    points: Seq<Point2>,
    stack: Seq<Frame>,
    task: Task,
) -> bool {
    &&& edge_algebra(q)
    &&& q.len() <= usize::MAX
    &&& endpoints_ok(q, points)
    &&& stack_ok(q.len(), points.len(), stack)
    &&& task_ok(q.len(), points.len(), task)
    &&& ranges_ok(stack, points.len())
    &&& hull_frames_ok(q, points, stack)
    &&& hull_task_ok(q, points, stack, task)
}

/// One step of a task, from the mesh `q` and the stack `stack` to the mesh
/// `m` and the stack `rest`: it leaves the state of the next question, with
/// the phase `phase`, or a task that ends in the same state as the one it
/// began with, and sooner.
pub open spec fn step_holds(
    q: Seq<QuadEdge>,
    points: Seq<Point2>,
    stack: Seq<Frame>,
    task: Task,
    m: Seq<QuadEdge>,
    rest: Seq<Frame>,
    phase: Phase,
    next: Option<Task>,
) -> bool {
    &&& marks_kept(q, m)
    &&& match next {
        Some(then) => {
            &&& unwinding_ok(m, points, rest, then)
            &&& unwound(m, points, rest, then) == unwound(q, points, stack, task)
            &&& stack_weight(rest) + task_weight(then) < stack_weight(stack) + task_weight(task)
        },
        None => {
            &&& (MachineState { mesh: m, points, stack: rest, phase }) == unwound(
                q,
                points,
                stack,
                task,
            )
            &&& state_ok(MachineState { mesh: m, points, stack: rest, phase })
        },
    }
}

/// One step of a task, from the state `before` to the state `after`.
pub open spec fn unwinding_step(
    before: MachineState,
    task: Task,
    after: MachineState,
    next: Option<Task>,
) -> bool {
    &&& after.points == before.points
    &&& step_holds(
        before.mesh,
        before.points,
        before.stack,
        task,
        after.mesh,
        after.stack,
        after.phase,
        next,
    )
}

/// What a task on two points ends in is what handing back their edge ends
/// in.
proof fn lemma_unwound_on_two(
    q: Seq<QuadEdge>,
    points: Seq<Point2>,
    stack: Seq<Frame>,
    lo: usize,
    hi: usize,
)
    requires
        !exhausted(q),
        hi - lo <= 2,
    ensures
        unwound(q, points, stack, Task::Start { lo, hi }) == unwound(
            two_points(q, points[lo as int], points[lo + 1]),
            points,
            stack,
            Task::Return { left: next_edge(q), right: next_edge(q).sym() },
        ),
        task_weight(Task::Return { left: next_edge(q), right: next_edge(q).sym() }) < task_weight(
            Task::Start { lo, hi },
        ),
{
}

/// The edge that joins the first two points of the range at work leaves the
/// first and ends at the last, when the range is of two points.
proof fn lemma_hull_ends_on_two(
    q: Seq<QuadEdge>,
    points: Seq<Point2>,
    stack: Seq<Frame>,
    lo: usize,
    hi: usize,
)
    requires
        hull_task_ok(q, points, stack, Task::Start { lo, hi }),
        task_ok(q.len(), points.len(), Task::Start { lo, hi }),
        hi - lo <= 2,
        q.len() < usize::MAX,
    ensures
        hull_task_ok(
            two_points(q, points[lo as int], points[lo + 1]),
            points,
            stack,
            Task::Return { left: next_edge(q), right: next_edge(q).sym() },
        ),
        task_ok(
            two_points(q, points[lo as int], points[lo + 1]).len(),
            points.len(),
            Task::Return { left: next_edge(q), right: next_edge(q).sym() },
        ),
{
    reveal(two_points);
    let p0 = points[lo as int];
    let p1 = points[lo + 1];
    let a = next_edge(q);
    lemma_grown(q);
    lemma_with_org(grown(q), a, p0);
    lemma_with_org(with_org(grown(q), a, p0), a.sym(), p1);
    lemma_rotation_algebra(a);
    let m = two_points(q, p0, p1);
    assert(org_of(m, a) == p0);
    assert(org_of(m, a.sym()) == p1);
}

/// The step on two points: they are joined, and the edge is handed back.
#[verifier::rlimit(30)]
pub proof fn lemma_start_on_two(
    q: Seq<QuadEdge>,
    points: Seq<Point2>,
    stack: Seq<Frame>,
    lo: usize,
    hi: usize,
    phase: Phase,
)
    requires
        unwinding_ok(q, points, stack, Task::Start { lo, hi }),
        !exhausted(q),
        hi - lo <= 2,
    ensures
        step_holds(
            q,
            points,
            stack,
            Task::Start { lo, hi },
            two_points(q, points[lo as int], points[lo + 1]),
            stack,
            phase,
            Some(Task::Return { left: next_edge(q), right: next_edge(q).sym() }),
        ),
{
    let p0 = points[lo as int];
    let p1 = points[lo + 1];
    let m = two_points(q, p0, p1);
    lemma_unwound_on_two(q, points, stack, lo, hi);
    lemma_hull_ends_on_two(q, points, stack, lo, hi);
    lemma_two_points_keeps_endpoints(q, points, p0, p1);
    lemma_two_points_is_algebra(q, p0, p1);
    lemma_hull_frames_kept(q, m, points, stack);
    lemma_stack_ok_grows(q.len(), m.len(), points.len(), stack);
}

/// The base case of two points keeps the mesh an edge algebra.
pub proof fn lemma_two_points_is_algebra(q: Seq<QuadEdge>, p0: Point2, p1: Point2)
    requires
        edge_algebra(q),
        q.len() < usize::MAX,
    ensures
        edge_algebra(two_points(q, p0, p1)),
        two_points(q, p0, p1).len() == q.len() + 1,
{
    reveal(two_points);
    let a = next_edge(q);
    lemma_grown(q);
    lemma_with_org(grown(q), a, p0);
    lemma_with_org(with_org(grown(q), a, p0), a.sym(), p1);
}

/// The base case of three points keeps the mesh an edge algebra.
pub proof fn lemma_three_points_is_algebra(q: Seq<QuadEdge>, p0: Point2, p1: Point2, p2: Point2)
    requires
        edge_algebra(q),
        q.len() + 1 < usize::MAX,
    ensures
        edge_algebra(three_points(q, p0, p1, p2)),
        three_points(q, p0, p1, p2).len() == q.len() + 2,
{
    reveal(three_points);
    let a = next_edge(q);
    let q1 = grown(q);
    lemma_grown(q);
    let b = next_edge(q1);
    let q2 = grown(q1);
    lemma_grown(q1);
    let q3 = spliced(q2, a.sym(), b);
    lemma_spliced(q2, a.sym(), b);
    let q4 = with_org(q3, a, p0);
    lemma_with_org(q3, a, p0);
    let q5 = with_org(q4, b, p1);
    lemma_with_org(q4, b, p1);
    let q6 = with_dest(q5, a, p1);
    lemma_with_org(q5, a.sym(), p1);
    lemma_with_org(q6, b.sym(), p2);
}

/// The step on three points: they are joined in a chain, and the question
/// of their orientation is asked.
#[verifier::rlimit(30)]
pub proof fn lemma_start_on_three(
    q: Seq<QuadEdge>,
    points: Seq<Point2>,
    stack: Seq<Frame>,
    lo: usize,
    hi: usize,
)
    requires
        unwinding_ok(q, points, stack, Task::Start { lo, hi }),
        !exhausted(q),
        hi - lo == 3,
    ensures
        step_holds(
            q,
            points,
            stack,
            Task::Start { lo, hi },
            three_points(q, points[lo as int], points[lo + 1], points[lo + 2]),
            stack,
            Phase::TriangleFirst { a: next_edge(q), b: next_edge(grown(q)) },
            None,
        ),
{
    let p0 = points[lo as int];
    let p1 = points[lo + 1];
    let p2 = points[lo + 2];
    let m = three_points(q, p0, p1, p2);
    lemma_three_points_keeps_endpoints(q, points, p0, p1, p2);
    lemma_three_points_is_algebra(q, p0, p1, p2);
    lemma_hull_frames_kept(q, m, points, stack);
    lemma_rotation_algebra(next_edge(grown(q)));
    lemma_stack_ok_grows(q.len(), m.len(), points.len(), stack);
}

/// The step on four points or more: the merge is put on the stack, and the
/// left half is started on.
pub proof fn lemma_start_on_more(
    q: Seq<QuadEdge>,
    points: Seq<Point2>,
    stack: Seq<Frame>,
    lo: usize,
    hi: usize,
    phase: Phase,
)
    requires
        unwinding_ok(q, points, stack, Task::Start { lo, hi }),
        !exhausted(q),
        hi - lo > 3,
    ensures
        step_holds(
            q,
            points,
            stack,
            Task::Start { lo, hi },
            q,
            stack.push(Frame::AwaitLeft { lo, hi }),
            phase,
            Some(Task::Start { lo, hi: middle(lo, hi) }),
        ),
{
    let frame = Frame::AwaitLeft { lo, hi };
    lemma_stack_weight_push(stack, frame);
    lemma_ranges_ok_push(stack, points.len(), frame);
    lemma_frames_ok_push(q, points, stack, frame);
}

/// The step that hands hull edges back when no merge waits: the
/// construction is at its end.
pub proof fn lemma_hand_back_to_none(
    q: Seq<QuadEdge>,
    points: Seq<Point2>,
    stack: Seq<Frame>,
    left: EdgeRef,
    right: EdgeRef,
)
    requires
        unwinding_ok(q, points, stack, Task::Return { left, right }),
        !exhausted(q),
        stack.len() == 0,
    ensures
        step_holds(
            q,
            points,
            stack,
            Task::Return { left, right },
            q,
            stack,
            Phase::Done { ldo: left, rdo: right },
            None,
        ),
{
}

/// The step that hands the hull edges of a left half back: the merge goes
/// on with its right half.
#[verifier::rlimit(30)]
pub proof fn lemma_hand_back_left(
    q: Seq<QuadEdge>,
    points: Seq<Point2>,
    stack: Seq<Frame>,
    left: EdgeRef,
    right: EdgeRef,
    phase: Phase,
)
    requires
        unwinding_ok(q, points, stack, Task::Return { left, right }),
        !exhausted(q),
        stack.len() > 0,
        stack.last() is AwaitLeft,
    ensures
        step_holds(
            q,
            points,
            stack,
            Task::Return { left, right },
            q,
            stack.drop_last().push(
                Frame::AwaitRight {
                    lo: stack.last()->AwaitLeft_lo,
                    hi: stack.last()->AwaitLeft_hi,
                    ldo: left,
                    ldi: right,
                },
            ),
            phase,
            Some(
                Task::Start {
                    lo: middle(stack.last()->AwaitLeft_lo, stack.last()->AwaitLeft_hi),
                    hi: stack.last()->AwaitLeft_hi,
                },
            ),
        ),
{
    let lo = stack.last()->AwaitLeft_lo;
    let hi = stack.last()->AwaitLeft_hi;
    let frame = Frame::AwaitRight { lo, hi, ldo: left, ldi: right };
    let shorter = stack.drop_last();
    assert(frame_ok(q.len(), points.len(), stack[stack.len() - 1]));
    lemma_ranges_ok_pop(stack, points.len());
    lemma_frames_ok_pop(q, points, stack);
    lemma_stack_weight_push(shorter, frame);
    lemma_ranges_ok_push(shorter, points.len(), frame);
    lemma_frames_ok_push(q, points, shorter, frame);
}

/// The step that hands the hull edges of a right half back: the search for
/// the lower common tangent of the two halves starts.
#[verifier::rlimit(30)]
pub proof fn lemma_hand_back_right(
    q: Seq<QuadEdge>,
    points: Seq<Point2>,
    stack: Seq<Frame>,
    left: EdgeRef,
    right: EdgeRef,
)
    requires
        unwinding_ok(q, points, stack, Task::Return { left, right }),
        !exhausted(q),
        stack.len() > 0,
        stack.last() is AwaitRight,
    ensures
        step_holds(
            q,
            points,
            stack,
            Task::Return { left, right },
            q,
            stack.drop_last(),
            Phase::TangentLeft {
                ldo: stack.last()->AwaitRight_ldo,
                ldi: stack.last()->AwaitRight_ldi,
                rdi: left,
                rdo: right,
            },
            None,
        ),
{
    assert(frame_ok(q.len(), points.len(), stack[stack.len() - 1]));
    assert(match stack[stack.len() - 1] {
        Frame::AwaitLeft { lo, hi } => true,
        Frame::AwaitRight { lo, hi, ldo, ldi } => coincide(org_of(q, ldo), points[lo as int]),
    });
    lemma_ranges_ok_pop(stack, points.len());
    lemma_frames_ok_pop(q, points, stack);
}

/// The frames below the top one are in order when all are.
pub proof fn lemma_frames_ok_pop(q: Seq<QuadEdge>, points: Seq<Point2>, stack: Seq<Frame>)
    requires
        stack.len() > 0,
        stack_ok(q.len(), points.len(), stack),
        hull_frames_ok(q, points, stack),
    ensures
        stack_ok(q.len(), points.len(), stack.drop_last()),
        hull_frames_ok(q, points, stack.drop_last()),
{
    let shorter = stack.drop_last();
    assert forall|i: int| 0 <= i < shorter.len() implies frame_ok(
        q.len(),
        points.len(),
        #[trigger] shorter[i],
    ) by {
        assert(shorter[i] == stack[i]);
    }
    assert forall|i: int| 0 <= i < shorter.len() implies match #[trigger] shorter[i] {
        Frame::AwaitLeft { lo, hi } => true,
        Frame::AwaitRight { lo, hi, ldo, ldi } => coincide(org_of(q, ldo), points[lo as int]),
    } by {
        assert(shorter[i] == stack[i]);
    }
}

/// A frame that is in order can be put on a stack that is.
pub proof fn lemma_frames_ok_push(
    q: Seq<QuadEdge>,
    points: Seq<Point2>,
    stack: Seq<Frame>,
    frame: Frame,
)
    requires
        stack_ok(q.len(), points.len(), stack),
        hull_frames_ok(q, points, stack),
        frame_ok(q.len(), points.len(), frame),
        match frame {
            Frame::AwaitLeft { lo, hi } => true,
            Frame::AwaitRight { lo, hi, ldo, ldi } => coincide(org_of(q, ldo), points[lo as int]),
        },
    ensures
        stack_ok(q.len(), points.len(), stack.push(frame)),
        hull_frames_ok(q, points, stack.push(frame)),
{
    let longer = stack.push(frame);
    assert forall|i: int| 0 <= i < longer.len() implies frame_ok(
        q.len(),
        points.len(),
        #[trigger] longer[i],
    ) by {
        if i < stack.len() {
            assert(longer[i] == stack[i]);
        }
    }
    assert forall|i: int| 0 <= i < longer.len() implies match #[trigger] longer[i] {
        Frame::AwaitLeft { lo, hi } => true,
        Frame::AwaitRight { lo, hi, ldo, ldi } => coincide(org_of(q, ldo), points[lo as int]),
    } by {
        if i < stack.len() {
            assert(longer[i] == stack[i]);
        }
    }
}

/// Over a sanitized list, the hull edges that the construction ends with
/// leave the first and the last point of the list, bit for bit.
pub proof fn lemma_hull_edges_leave_the_ends(s: MachineState)
    requires
        state_ok(s),
        s.phase is Done,
        all_finite(s.points),
        ordered(s.points),
        spaced(s.points),
    ensures
        org_of(s.mesh, s.phase->Done_ldo) == s.points[0],
        org_of(s.mesh, s.phase->Done_rdo) == s.points[s.points.len() - 1],
{
    let ldo = s.phase->Done_ldo;
    let rdo = s.phase->Done_rdo;
    let last = s.points.len() - 1;
    assert(in_mesh(s.mesh, ldo) && in_mesh(s.mesh, rdo));
    assert(s.points.contains(org_of(s.mesh, ldo)));
    assert(s.points.contains(org_of(s.mesh, rdo)));
    let i = choose|i: int| 0 <= i < s.points.len() && s.points[i] == org_of(s.mesh, ldo);
    let j = choose|j: int| 0 <= j < s.points.len() && s.points[j] == org_of(s.mesh, rdo);
    if 0 < i {
        lemma_sanitized_points_are_apart(s.points, 0, i);
    }
    if j < last {
        lemma_sanitized_points_are_apart(s.points, j, last);
    }
}

/// Keeping the records, step after step, is keeping them.
pub proof fn lemma_marks_kept_in_steps(a: Seq<QuadEdge>, b: Seq<QuadEdge>, c: Seq<QuadEdge>)
    requires
        marks_kept(a, b),
        marks_kept(b, c),
    ensures
        marks_kept(a, c),
{
    assert forall|i: int| 0 <= i < a.len() && a[i].deleted implies (#[trigger] c[i]).deleted by {
        assert(b[i].deleted);
    }
}

/// A stack that is in order stays so when the mesh grows.
pub proof fn lemma_stack_ok_grows(len: nat, longer: nat, n: nat, stack: Seq<Frame>)
    requires
        stack_ok(len, n, stack),
        len <= longer,
    ensures
        stack_ok(longer, n, stack),
{
    assert forall|i: int| 0 <= i < stack.len() implies frame_ok(longer, n, #[trigger] stack[i]) by {
        assert(frame_ok(len, n, stack[i]));
    }
}

} // verus!
