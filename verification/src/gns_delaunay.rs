//! The Guibas–Stolfi divide-and-conquer construction, as a machine that is
//! resumed with the answers to its geometric questions.
//!
//! The construction decides everything about the mesh but the two predicates
//! it rests on: whether three points turn counter-clockwise, and whether a
//! point lies inside the circle through three others. Those are evaluated on
//! the coordinates' values, outside this crate. A [`Triangulator`] therefore
//! stops at each question ([`Triangulator::pending`]) and goes on when it is
//! given the answer ([`Triangulator::answer`]). What it does with an answer
//! is a function of its state and of the answer alone ([`answered`]).
//!
//! Whatever the answers are, the mesh stays an edge algebra, every edge of it
//! joins two of the points, no record goes away, no deleted record comes
//! back, and the two hull edges that the construction ends with leave the
//! first and the last point of the list ([`state_ok`]). That the mesh is the
//! Delaunay triangulation rests on the answers being true of the points.

use crate::algebra::edge_algebra;
use crate::algebra::lemma_neighbours;
use crate::algebra::lemma_rotation_algebra;
use crate::arena::MAX_QUADS;
use crate::arena::arena_len;
use crate::arena::arena_quads;
use crate::arena::arena_with_capacity;
use crate::edge::EdgeRef;
use crate::edge::QuadEdge;
use crate::edge::QuadEdgeArena;
use crate::edge::connect;
use crate::edge::connected;
use crate::edge::delete_edge;
use crate::edge::dest_of;
use crate::edge::edge_deleted;
use crate::edge::grown;
use crate::edge::lnext_of;
use crate::edge::make_edge;
use crate::edge::next_edge;
use crate::edge::onext_of;
use crate::edge::oprev_of;
use crate::edge::org_of;
use crate::edge::rprev_of;
use crate::edge::splice;
use crate::edge::spliced;
use crate::edge::with_dest;
use crate::edge::with_org;
use crate::error::TriangulationError;
use crate::invariants::edge_ok;
use crate::invariants::frame_ok;
use crate::invariants::hull_ends;
use crate::invariants::lemma_advance_keeps_endpoints;
use crate::invariants::lemma_advance_keeps_hull;
use crate::invariants::lemma_hand_back_left;
use crate::invariants::lemma_hand_back_right;
use crate::invariants::lemma_hand_back_to_none;
use crate::invariants::lemma_hull_frames_kept;
use crate::invariants::lemma_marks_kept_in_steps;
use crate::invariants::lemma_segments_join_points;
use crate::invariants::lemma_stack_ok_grows;
use crate::invariants::lemma_start_on_more;
use crate::invariants::lemma_start_on_three;
use crate::invariants::lemma_start_on_two;
use crate::invariants::marks_kept;
use crate::invariants::next_ok;
use crate::invariants::phase_ok;
use crate::invariants::state_ok;
use crate::invariants::unwinding_ok;
use crate::invariants::unwinding_step;
use crate::point::Point2;
use crate::point::same_point;
use vstd::prelude::*;

verus! {

/// A question about points, to be answered on the values of their
/// coordinates, in the frame whose `y` axis points down.
#[derive(Copy, Clone, Debug)]
pub enum Query {
    /// Do the three points `a`, `b`, `c`, in this order, turn
    /// counter-clockwise? They do when the determinant
    /// `(bx - ax)(cy - ay) - (by - ay)(cx - ax)` is negative.
    CounterClockwise(Point2, Point2, Point2),
    /// Does the fourth point lie strictly inside the circle through the
    /// first three, taken counter-clockwise? It does when the in-circle
    /// determinant of the four points is negative.
    InCircle(Point2, Point2, Point2, Point2),
}

/// A merge that waits for one of its halves. The merge is over the points
/// from `lo` up to `hi`, split at [`middle`].
#[derive(Copy, Clone, Debug)]
pub enum Frame {
    /// The left half is being built.
    AwaitLeft { lo: usize, hi: usize },
    /// The left half is built, with hull edges `ldo` and `ldi`; the right half
    /// is being built.
    AwaitRight { lo: usize, hi: usize, ldo: EdgeRef, ldi: EdgeRef },
}

/// Where the construction stands. Every phase but the last two is a question
/// that waits for its answer ([`query_of`]).
#[derive(Copy, Clone, Debug)]
pub enum Phase {
    /// Three points, joined by `a` and `b`: are they counter-clockwise?
    TriangleFirst { a: EdgeRef, b: EdgeRef },
    /// Three points that are not counter-clockwise: are they clockwise?
    TriangleSecond { a: EdgeRef, b: EdgeRef },
    /// Lower tangent: is the origin of `rdi` left of `ldi`?
    TangentLeft { ldo: EdgeRef, ldi: EdgeRef, rdi: EdgeRef, rdo: EdgeRef },
    /// Lower tangent: is the origin of `ldi` right of `rdi`?
    TangentRight { ldo: EdgeRef, ldi: EdgeRef, rdi: EdgeRef, rdo: EdgeRef },
    /// Zip-up: is the left candidate above the base?
    LeftValid { ldo: EdgeRef, rdo: EdgeRef, basel: EdgeRef, lcand: EdgeRef },
    /// Zip-up: does the left candidate's successor lie in the circle, so
    /// that the candidate has to go?
    LeftCircle { ldo: EdgeRef, rdo: EdgeRef, basel: EdgeRef, lcand: EdgeRef },
    /// Zip-up: is the right candidate above the base?
    RightValid { ldo: EdgeRef, rdo: EdgeRef, basel: EdgeRef, lcand: EdgeRef, rcand: EdgeRef },
    /// Zip-up: does the right candidate's predecessor lie in the circle, so
    /// that the candidate has to go?
    RightCircle { ldo: EdgeRef, rdo: EdgeRef, basel: EdgeRef, lcand: EdgeRef, rcand: EdgeRef },
    /// Zip-up, with both candidates settled: is the left one above the base?
    DecideLeft { ldo: EdgeRef, rdo: EdgeRef, basel: EdgeRef, lcand: EdgeRef, rcand: EdgeRef },
    /// Zip-up, with both candidates settled: is the right one above the base?
    DecideRight {
        ldo: EdgeRef,
        rdo: EdgeRef,
        basel: EdgeRef,
        lcand: EdgeRef,
        rcand: EdgeRef,
        left_valid: bool,
    },
    /// Zip-up, with both candidates above the base: does the right one lie in
    /// the circle of the left one?
    DecideCircle { ldo: EdgeRef, rdo: EdgeRef, basel: EdgeRef, lcand: EdgeRef, rcand: EdgeRef },
    /// The mesh is built. `ldo` is the hull edge out of the first point of
    /// the list, to be followed counter-clockwise, and `rdo` the hull edge
    /// out of the last point, to be followed clockwise.
    Done { ldo: EdgeRef, rdo: EdgeRef },
    /// The arena has no room for the quad-edges that the next step may need.
    Exhausted,
}

/// What the construction does next, between two questions.
#[derive(Copy, Clone, Debug)]
pub enum Task {
    /// Build the mesh of the points from `lo` up to `hi`.
    Start { lo: usize, hi: usize },
    /// A mesh is built; hand its hull edges to the merge that waits for them.
    Return { left: EdgeRef, right: EdgeRef },
}

/// What an answer leads to.
#[derive(Copy, Clone, Debug)]
pub enum Next {
    /// Another question.
    Wait(Phase),
    /// The end of a merge or of a triangle, with its hull edges.
    Return(EdgeRef, EdgeRef),
}

/// The state of a [`Triangulator`]: the mesh, the points, the merges that
/// wait, and the phase.
pub struct MachineState {
    pub mesh: Seq<QuadEdge>,
    pub points: Seq<Point2>,
    pub stack: Seq<Frame>,
    pub phase: Phase,
}

/// The Guibas–Stolfi construction over a list of points, stopped at a
/// question or at its end.
pub struct Triangulator {
    quad_arena: QuadEdgeArena,
    points: Vec<Point2>,
    stack: Vec<Frame>,
    phase: Phase,
}

/// The index at which the points from `lo` up to `hi` are split.
pub open spec fn middle(lo: usize, hi: usize) -> usize {
    (lo + (hi - lo) / 2) as usize
}

/// The arena may lack the room for the records of one more step.
pub open spec fn exhausted(q: Seq<QuadEdge>) -> bool {
    q.len() + 4 > MAX_QUADS
}

/// LeftOf: the point `p` is left of the edge `e`.
pub open spec fn left_of_query(q: Seq<QuadEdge>, p: Point2, e: EdgeRef) -> Query {
    Query::CounterClockwise(p, org_of(q, e), dest_of(q, e))
}

/// RightOf: the point `p` is right of the edge `e`.
pub open spec fn right_of_query(q: Seq<QuadEdge>, p: Point2, e: EdgeRef) -> Query {
    Query::CounterClockwise(p, dest_of(q, e), org_of(q, e))
}

/// Valid: the destination of the candidate `e` is right of the base.
pub open spec fn valid_query(q: Seq<QuadEdge>, e: EdgeRef, basel: EdgeRef) -> Query {
    right_of_query(q, dest_of(q, e), basel)
}

/// The question that a phase waits on, if it waits on one.
pub open spec fn query_of(q: Seq<QuadEdge>, phase: Phase) -> Option<Query> {
    match phase {
        Phase::TriangleFirst { a, b } => Some(
            Query::CounterClockwise(org_of(q, a), org_of(q, b), dest_of(q, b)),
        ),
        Phase::TriangleSecond { a, b } => Some(
            Query::CounterClockwise(org_of(q, a), dest_of(q, b), org_of(q, b)),
        ),
        Phase::TangentLeft { ldo, ldi, rdi, rdo } => Some(left_of_query(q, org_of(q, rdi), ldi)),
        Phase::TangentRight { ldo, ldi, rdi, rdo } => Some(
            right_of_query(q, org_of(q, ldi), rdi),
        ),
        Phase::LeftValid { ldo, rdo, basel, lcand } => Some(valid_query(q, lcand, basel)),
        Phase::LeftCircle { ldo, rdo, basel, lcand } => Some(
            Query::InCircle(
                dest_of(q, basel),
                org_of(q, basel),
                dest_of(q, lcand),
                dest_of(q, onext_of(q, lcand)),
            ),
        ),
        Phase::RightValid { ldo, rdo, basel, lcand, rcand } => Some(valid_query(q, rcand, basel)),
        Phase::RightCircle { ldo, rdo, basel, lcand, rcand } => Some(
            Query::InCircle(
                dest_of(q, basel),
                org_of(q, basel),
                dest_of(q, rcand),
                dest_of(q, oprev_of(q, rcand)),
            ),
        ),
        Phase::DecideLeft { ldo, rdo, basel, lcand, rcand } => Some(valid_query(q, lcand, basel)),
        Phase::DecideRight { ldo, rdo, basel, lcand, rcand, left_valid } => Some(
            valid_query(q, rcand, basel),
        ),
        Phase::DecideCircle { ldo, rdo, basel, lcand, rcand } => Some(
            Query::InCircle(
                dest_of(q, lcand),
                org_of(q, lcand),
                org_of(q, rcand),
                dest_of(q, rcand),
            ),
        ),
        Phase::Done { ldo, rdo } => None,
        Phase::Exhausted => None,
    }
}

/// The mesh after the base case of two points: one edge from `p0` to `p1`,
/// which is [`next_edge`] of the mesh before.
#[verifier::opaque]
pub open spec fn two_points(q: Seq<QuadEdge>, p0: Point2, p1: Point2) -> Seq<QuadEdge> {
    let a = next_edge(q);
    with_dest(with_org(grown(q), a, p0), a, p1)
}

/// The mesh after the first part of the base case of three points: an edge
/// `a` from `p0` to `p1` and an edge `b` from `p1` to `p2`, joined at `p1`.
/// `a` is [`next_edge`] of the mesh before, and `b` the one after it.
#[verifier::opaque]
pub open spec fn three_points(q: Seq<QuadEdge>, p0: Point2, p1: Point2, p2: Point2) -> Seq<
    QuadEdge,
> {
    let a = next_edge(q);
    let q1 = grown(q);
    let b = next_edge(q1);
    let q2 = grown(q1);
    let q3 = spliced(q2, a.sym(), b);
    let q4 = with_org(q3, a, p0);
    let q5 = with_org(q4, b, p1);
    let q6 = with_dest(q5, a, p1);
    with_dest(q6, b, p2)
}

/// The start of a round of the zip-up: the left candidate is the Onext of
/// the reversed base.
pub open spec fn zip_round(q: Seq<QuadEdge>, ldo: EdgeRef, rdo: EdgeRef, basel: EdgeRef) -> Phase {
    Phase::LeftValid { ldo, rdo, basel, lcand: onext_of(q, basel.sym()) }
}

/// The turn of the right side in a round of the zip-up: the right candidate
/// is the Oprev of the base.
pub open spec fn right_turn(
    q: Seq<QuadEdge>,
    ldo: EdgeRef,
    rdo: EdgeRef,
    basel: EdgeRef,
    lcand: EdgeRef,
) -> Phase {
    Phase::RightValid { ldo, rdo, basel, lcand, rcand: oprev_of(q, basel) }
}

/// The round ends with a new base from the right candidate.
pub open spec fn cross_right(
    q: Seq<QuadEdge>,
    ldo: EdgeRef,
    rdo: EdgeRef,
    basel: EdgeRef,
    rcand: EdgeRef,
) -> (Seq<QuadEdge>, Next) {
    let m = connected(q, rcand, basel.sym());
    (m, Next::Wait(zip_round(m, ldo, rdo, next_edge(q))))
}

/// The round ends with a new base to the left candidate.
pub open spec fn cross_left(
    q: Seq<QuadEdge>,
    ldo: EdgeRef,
    rdo: EdgeRef,
    basel: EdgeRef,
    lcand: EdgeRef,
) -> (Seq<QuadEdge>, Next) {
    let m = connected(q, basel.sym(), lcand.sym());
    (m, Next::Wait(zip_round(m, ldo, rdo, next_edge(q))))
}

/// The lower common tangent is found: the base joins the two halves, and
/// the zip-up starts. A hull edge whose origin is an end of the base is
/// replaced by the base.
pub open spec fn tangent_found(
    q: Seq<QuadEdge>,
    ldo: EdgeRef,
    ldi: EdgeRef,
    rdi: EdgeRef,
    rdo: EdgeRef,
) -> (Seq<QuadEdge>, Next) {
    let basel = next_edge(q);
    let m = connected(q, rdi.sym(), ldi);
    let new_ldo = if same_point(org_of(m, ldi), org_of(m, ldo)) {
        basel.sym()
    } else {
        ldo
    };
    let new_rdo = if same_point(org_of(m, rdi), org_of(m, rdo)) {
        basel
    } else {
        rdo
    };
    (m, Next::Wait(zip_round(m, new_ldo, new_rdo, basel)))
}

/// What the answer `yes` to the question of `phase` does to the mesh, and
/// what it leads to.
pub open spec fn advance(q: Seq<QuadEdge>, phase: Phase, yes: bool) -> (Seq<QuadEdge>, Next) {
    match phase {
        Phase::TriangleFirst { a, b } => if yes {
            (connected(q, a, b), Next::Return(a, b.sym()))
        } else {
            (q, Next::Wait(Phase::TriangleSecond { a, b }))
        },
        Phase::TriangleSecond { a, b } => if yes {
            (connected(q, b, a), Next::Return(next_edge(q).sym(), next_edge(q)))
        } else {
            (q, Next::Return(a, b.sym()))
        },
        Phase::TangentLeft { ldo, ldi, rdi, rdo } => if yes {
            (q, Next::Wait(Phase::TangentLeft { ldo, ldi: lnext_of(q, ldi), rdi, rdo }))
        } else {
            (q, Next::Wait(Phase::TangentRight { ldo, ldi, rdi, rdo }))
        },
        Phase::TangentRight { ldo, ldi, rdi, rdo } => if yes {
            (q, Next::Wait(Phase::TangentLeft { ldo, ldi, rdi: rprev_of(q, rdi), rdo }))
        } else {
            tangent_found(q, ldo, ldi, rdi, rdo)
        },
        Phase::LeftValid { ldo, rdo, basel, lcand } => if yes {
            (q, Next::Wait(Phase::LeftCircle { ldo, rdo, basel, lcand }))
        } else {
            (q, Next::Wait(right_turn(q, ldo, rdo, basel, lcand)))
        },
        Phase::LeftCircle { ldo, rdo, basel, lcand } => if yes {
            (
                edge_deleted(q, lcand),
                Next::Wait(Phase::LeftCircle { ldo, rdo, basel, lcand: onext_of(q, lcand) }),
            )
        } else {
            (q, Next::Wait(right_turn(q, ldo, rdo, basel, lcand)))
        },
        Phase::RightValid { ldo, rdo, basel, lcand, rcand } => if yes {
            (q, Next::Wait(Phase::RightCircle { ldo, rdo, basel, lcand, rcand }))
        } else {
            (q, Next::Wait(Phase::DecideLeft { ldo, rdo, basel, lcand, rcand }))
        },
        Phase::RightCircle { ldo, rdo, basel, lcand, rcand } => if yes {
            (
                edge_deleted(q, rcand),
                Next::Wait(
                    Phase::RightCircle { ldo, rdo, basel, lcand, rcand: oprev_of(q, rcand) },
                ),
            )
        } else {
            (q, Next::Wait(Phase::DecideLeft { ldo, rdo, basel, lcand, rcand }))
        },
        Phase::DecideLeft { ldo, rdo, basel, lcand, rcand } => (
            q,
            Next::Wait(Phase::DecideRight { ldo, rdo, basel, lcand, rcand, left_valid: yes }),
        ),
        Phase::DecideRight { ldo, rdo, basel, lcand, rcand, left_valid } => if !left_valid
            && !yes {
            (q, Next::Return(ldo, rdo))
        } else if !left_valid {
            cross_right(q, ldo, rdo, basel, rcand)
        } else if !yes {
            cross_left(q, ldo, rdo, basel, lcand)
        } else {
            (q, Next::Wait(Phase::DecideCircle { ldo, rdo, basel, lcand, rcand }))
        },
        Phase::DecideCircle { ldo, rdo, basel, lcand, rcand } => if yes {
            cross_right(q, ldo, rdo, basel, rcand)
        } else {
            cross_left(q, ldo, rdo, basel, lcand)
        },
        Phase::Done { ldo, rdo } => (q, Next::Wait(phase)),
        Phase::Exhausted => (q, Next::Wait(phase)),
    }
}

/// A bound on the steps that a task takes before the next question.
pub open spec fn task_weight(task: Task) -> nat {
    match task {
        Task::Start { lo, hi } => if hi - lo >= 2 {
            (2 * (hi - lo) - 3) as nat
        } else {
            1
        },
        Task::Return { left, right } => 0,
    }
}

/// A bound on the steps that a waiting merge takes before the next
/// question, once it is handed what it waits for.
pub open spec fn frame_weight(frame: Frame) -> nat {
    match frame {
        Frame::AwaitLeft { lo, hi } => task_weight(Task::Start { lo: middle(lo, hi), hi }) + 1,
        Frame::AwaitRight { lo, hi, ldo, ldi } => 0,
    }
}

/// The sum of the bounds of the frames of a stack.
pub open spec fn stack_weight(stack: Seq<Frame>) -> nat
    decreases stack.len(),
{
    if stack.len() == 0 {
        0
    } else {
        stack_weight(stack.drop_last()) + frame_weight(stack.last())
    }
}

/// The state in which a task ends: that of the next question, or of the end
/// of the construction.
///
/// Two points are joined by an edge, which is handed back. Three points are
/// joined by two edges, and the question of their orientation is asked. More
/// points are split in two halves: the left half is built, then the right
/// half, and then the search for the lower common tangent starts. Edges that
/// are handed back when no merge waits are the hull edges of the whole mesh.
pub open spec fn unwound(
    q: Seq<QuadEdge>,
    points: Seq<Point2>,
    stack: Seq<Frame>,
    task: Task,
) -> MachineState
    decreases stack_weight(stack) + task_weight(task),
    via unwound_terminates
{
    if exhausted(q) {
        MachineState { mesh: q, points, stack, phase: Phase::Exhausted }
    } else {
        match task {
            Task::Start { lo, hi } => {
                if hi - lo <= 2 {
                    let a = next_edge(q);
                    unwound(
                        two_points(q, points[lo as int], points[lo + 1]),
                        points,
                        stack,
                        Task::Return { left: a, right: a.sym() },
                    )
                } else if hi - lo == 3 {
                    let a = next_edge(q);
                    let b = next_edge(grown(q));
                    MachineState {
                        mesh: three_points(q, points[lo as int], points[lo + 1], points[lo + 2]),
                        points,
                        stack,
                        phase: Phase::TriangleFirst { a, b },
                    }
                } else {
                    unwound(
                        q,
                        points,
                        stack.push(Frame::AwaitLeft { lo, hi }),
                        Task::Start { lo, hi: middle(lo, hi) },
                    )
                }
            },
            Task::Return { left, right } => {
                if stack.len() == 0 {
                    MachineState {
                        mesh: q,
                        points,
                        stack,
                        phase: Phase::Done { ldo: left, rdo: right },
                    }
                } else {
                    match stack.last() {
                        Frame::AwaitLeft { lo, hi } => unwound(
                            q,
                            points,
                            stack.drop_last().push(
                                Frame::AwaitRight { lo, hi, ldo: left, ldi: right },
                            ),
                            Task::Start { lo: middle(lo, hi), hi },
                        ),
                        Frame::AwaitRight { lo, hi, ldo, ldi } => MachineState {
                            mesh: q,
                            points,
                            stack: stack.drop_last(),
                            phase: Phase::TangentLeft { ldo, ldi, rdi: left, rdo: right },
                        },
                    }
                }
            },
        }
    }
}

/// The state in which a construction over `points` starts: that of its
/// first question.
pub open spec fn initial(points: Seq<Point2>) -> MachineState {
    unwound(
        Seq::<QuadEdge>::empty(),
        points,
        Seq::<Frame>::empty(),
        Task::Start { lo: 0, hi: points.len() as usize },
    )
}

/// The state after the answer `yes` to the question that `s` waits on.
pub open spec fn answered(s: MachineState, yes: bool) -> MachineState {
    if exhausted(s.mesh) {
        MachineState { mesh: s.mesh, points: s.points, stack: s.stack, phase: Phase::Exhausted }
    } else {
        let (m, next) = advance(s.mesh, s.phase, yes);
        match next {
            Next::Wait(phase) => MachineState { mesh: m, points: s.points, stack: s.stack, phase },
            Next::Return(left, right) => unwound(
                m,
                s.points,
                s.stack,
                Task::Return { left, right },
            ),
        }
    }
}

/// The segments of a mesh: for each quad-edge that is not deleted, in the
/// order of allocation, the origin and the destination of its primal edge.
pub open spec fn segments(q: Seq<QuadEdge>) -> Seq<(Point2, Point2)>
    decreases q.len(),
{
    if q.len() == 0 {
        Seq::empty()
    } else {
        match q.last().get_points() {
            Some(ends) => segments(q.drop_last()).push(ends),
            None => segments(q.drop_last()),
        }
    }
}

/// Pushing a frame adds its bound to that of the stack.
pub proof fn lemma_stack_weight_push(stack: Seq<Frame>, frame: Frame)
    ensures
        stack_weight(stack.push(frame)) == stack_weight(stack) + frame_weight(frame),
{
    assert(stack.push(frame).drop_last() =~= stack);
}

#[via_fn]
proof fn unwound_terminates(q: Seq<QuadEdge>, points: Seq<Point2>, stack: Seq<Frame>, task: Task) {
    match task {
        Task::Start { lo, hi } => {
            lemma_stack_weight_push(stack, Frame::AwaitLeft { lo, hi });
        },
        Task::Return { left, right } => {
            if stack.len() > 0 {
                match stack.last() {
                    Frame::AwaitLeft { lo, hi } => {
                        lemma_stack_weight_push(
                            stack.drop_last(),
                            Frame::AwaitRight { lo, hi, ldo: left, ldi: right },
                        );
                    },
                    Frame::AwaitRight { lo, hi, ldo, ldi } => {},
                }
            }
        },
    }
}

/// Does to the mesh what the answer `yes` to the question of `phase` asks
/// for, and says what it leads to.
fn advance_mesh(quad_arena: &mut QuadEdgeArena, phase: Phase, yes: bool) -> (next: Next)
    requires
        edge_algebra(arena_quads(*old(quad_arena))),
        !exhausted(arena_quads(*old(quad_arena))),
        phase_ok(arena_quads(*old(quad_arena)).len(), phase),
        query_of(arena_quads(*old(quad_arena)), phase) is Some,
    ensures
        (arena_quads(*final(quad_arena)), next) == advance(
            arena_quads(*old(quad_arena)),
            phase,
            yes,
        ),
        edge_algebra(arena_quads(*final(quad_arena))),
        arena_quads(*old(quad_arena)).len() <= arena_quads(*final(quad_arena)).len()
            <= arena_quads(*old(quad_arena)).len() + 1,
        next_ok(arena_quads(*final(quad_arena)).len(), next),
{
    match phase {
        Phase::TriangleFirst { .. } | Phase::TriangleSecond { .. } => advance_triangle(
            quad_arena,
            phase,
            yes,
        ),
        Phase::TangentLeft { .. } | Phase::TangentRight { .. } => advance_tangent(
            quad_arena,
            phase,
            yes,
        ),
        Phase::LeftValid { .. } | Phase::LeftCircle { .. } => advance_left(quad_arena, phase, yes),
        Phase::RightValid { .. } | Phase::RightCircle { .. } => advance_right(
            quad_arena,
            phase,
            yes,
        ),
        _ => advance_decision(quad_arena, phase, yes),
    }
}

/// The base case of three points: closes the triangle on the side on which
/// the points turn, or leaves them as a chain when they are colinear.
#[verifier::rlimit(30)]
fn advance_triangle(quad_arena: &mut QuadEdgeArena, phase: Phase, yes: bool) -> (next: Next)
    requires
        edge_algebra(arena_quads(*old(quad_arena))),
        !exhausted(arena_quads(*old(quad_arena))),
        phase_ok(arena_quads(*old(quad_arena)).len(), phase),
        phase is TriangleFirst || phase is TriangleSecond,
    ensures
        (arena_quads(*final(quad_arena)), next) == advance(
            arena_quads(*old(quad_arena)),
            phase,
            yes,
        ),
        edge_algebra(arena_quads(*final(quad_arena))),
        arena_quads(*old(quad_arena)).len() <= arena_quads(*final(quad_arena)).len()
            <= arena_quads(*old(quad_arena)).len() + 1,
        next_ok(arena_quads(*final(quad_arena)).len(), next),
{
    match phase {
        Phase::TriangleFirst { a, b } => {
            if yes {
                proof {
                    lemma_rotation_algebra(b);
                }
                let _ = connect(quad_arena, a, b);
                Next::Return(a, b.sym())
            } else {
                Next::Wait(Phase::TriangleSecond { a, b })
            }
        },
        Phase::TriangleSecond { a, b } => {
            proof {
                lemma_rotation_algebra(b);
            }
            if yes {
                let c = connect(quad_arena, b, a);
                Next::Return(c.sym(), c)
            } else {
                Next::Return(a, b.sym())
            }
        },
        _ => Next::Wait(phase),
    }
}

/// The search for the lower common tangent: walks `ldi` and `rdi` down the
/// two hulls until neither end of one lies on the outer side of the other.
#[verifier::rlimit(30)]
fn advance_tangent(quad_arena: &mut QuadEdgeArena, phase: Phase, yes: bool) -> (next: Next)
    requires
        edge_algebra(arena_quads(*old(quad_arena))),
        !exhausted(arena_quads(*old(quad_arena))),
        phase_ok(arena_quads(*old(quad_arena)).len(), phase),
        phase is TangentLeft || phase is TangentRight,
    ensures
        (arena_quads(*final(quad_arena)), next) == advance(
            arena_quads(*old(quad_arena)),
            phase,
            yes,
        ),
        edge_algebra(arena_quads(*final(quad_arena))),
        arena_quads(*old(quad_arena)).len() <= arena_quads(*final(quad_arena)).len()
            <= arena_quads(*old(quad_arena)).len() + 1,
        next_ok(arena_quads(*final(quad_arena)).len(), next),
{
    match phase {
        Phase::TangentLeft { ldo, ldi, rdi, rdo } => {
            if yes {
                proof {
                    lemma_neighbours(arena_quads(*quad_arena), ldi);
                }
                let ldi = ldi.lnext(quad_arena);
                Next::Wait(Phase::TangentLeft { ldo, ldi, rdi, rdo })
            } else {
                Next::Wait(Phase::TangentRight { ldo, ldi, rdi, rdo })
            }
        },
        Phase::TangentRight { ldo, ldi, rdi, rdo } => {
            if yes {
                proof {
                    lemma_neighbours(arena_quads(*quad_arena), rdi);
                }
                let rdi = rdi.rprev(quad_arena);
                Next::Wait(Phase::TangentLeft { ldo, ldi, rdi, rdo })
            } else {
                join_halves(quad_arena, ldo, ldi, rdi, rdo)
            }
        },
        _ => Next::Wait(phase),
    }
}

/// The left side of a round of the zip-up: deletes left candidates for as
/// long as the successor lies in the circle.
#[verifier::rlimit(30)]
fn advance_left(quad_arena: &mut QuadEdgeArena, phase: Phase, yes: bool) -> (next: Next)
    requires
        edge_algebra(arena_quads(*old(quad_arena))),
        !exhausted(arena_quads(*old(quad_arena))),
        phase_ok(arena_quads(*old(quad_arena)).len(), phase),
        phase is LeftValid || phase is LeftCircle,
    ensures
        (arena_quads(*final(quad_arena)), next) == advance(
            arena_quads(*old(quad_arena)),
            phase,
            yes,
        ),
        edge_algebra(arena_quads(*final(quad_arena))),
        arena_quads(*old(quad_arena)).len() <= arena_quads(*final(quad_arena)).len()
            <= arena_quads(*old(quad_arena)).len() + 1,
        next_ok(arena_quads(*final(quad_arena)).len(), next),
{
    match phase {
        Phase::LeftValid { ldo, rdo, basel, lcand } => {
            if yes {
                Next::Wait(Phase::LeftCircle { ldo, rdo, basel, lcand })
            } else {
                Next::Wait(turn_right(quad_arena, ldo, rdo, basel, lcand))
            }
        },
        Phase::LeftCircle { ldo, rdo, basel, lcand } => {
            if yes {
                proof {
                    lemma_neighbours(arena_quads(*quad_arena), lcand);
                }
                let t = lcand.onext(quad_arena);
                delete_edge(quad_arena, lcand);
                Next::Wait(Phase::LeftCircle { ldo, rdo, basel, lcand: t })
            } else {
                Next::Wait(turn_right(quad_arena, ldo, rdo, basel, lcand))
            }
        },
        _ => Next::Wait(phase),
    }
}

/// The right side of a round of the zip-up: deletes right candidates for as
/// long as the predecessor lies in the circle.
#[verifier::rlimit(30)]
fn advance_right(quad_arena: &mut QuadEdgeArena, phase: Phase, yes: bool) -> (next: Next)
    requires
        edge_algebra(arena_quads(*old(quad_arena))),
        !exhausted(arena_quads(*old(quad_arena))),
        phase_ok(arena_quads(*old(quad_arena)).len(), phase),
        phase is RightValid || phase is RightCircle,
    ensures
        (arena_quads(*final(quad_arena)), next) == advance(
            arena_quads(*old(quad_arena)),
            phase,
            yes,
        ),
        edge_algebra(arena_quads(*final(quad_arena))),
        arena_quads(*old(quad_arena)).len() <= arena_quads(*final(quad_arena)).len()
            <= arena_quads(*old(quad_arena)).len() + 1,
        next_ok(arena_quads(*final(quad_arena)).len(), next),
{
    match phase {
        Phase::RightValid { ldo, rdo, basel, lcand, rcand } => {
            if yes {
                Next::Wait(Phase::RightCircle { ldo, rdo, basel, lcand, rcand })
            } else {
                Next::Wait(Phase::DecideLeft { ldo, rdo, basel, lcand, rcand })
            }
        },
        Phase::RightCircle { ldo, rdo, basel, lcand, rcand } => {
            if yes {
                proof {
                    lemma_neighbours(arena_quads(*quad_arena), rcand);
                }
                let t = rcand.oprev(quad_arena);
                delete_edge(quad_arena, rcand);
                Next::Wait(Phase::RightCircle { ldo, rdo, basel, lcand, rcand: t })
            } else {
                Next::Wait(Phase::DecideLeft { ldo, rdo, basel, lcand, rcand })
            }
        },
        _ => Next::Wait(phase),
    }
}

/// The end of a round of the zip-up: with no candidate above the base the
/// merge is over; else the base moves up to one of them.
#[verifier::rlimit(30)]
fn advance_decision(quad_arena: &mut QuadEdgeArena, phase: Phase, yes: bool) -> (next: Next)
    requires
        edge_algebra(arena_quads(*old(quad_arena))),
        !exhausted(arena_quads(*old(quad_arena))),
        phase_ok(arena_quads(*old(quad_arena)).len(), phase),
        phase is DecideLeft || phase is DecideRight || phase is DecideCircle || phase is Done
            || phase is Exhausted,
    ensures
        (arena_quads(*final(quad_arena)), next) == advance(
            arena_quads(*old(quad_arena)),
            phase,
            yes,
        ),
        edge_algebra(arena_quads(*final(quad_arena))),
        arena_quads(*old(quad_arena)).len() <= arena_quads(*final(quad_arena)).len()
            <= arena_quads(*old(quad_arena)).len() + 1,
        next_ok(arena_quads(*final(quad_arena)).len(), next),
{
    match phase {
        Phase::DecideLeft { ldo, rdo, basel, lcand, rcand } => {
            Next::Wait(Phase::DecideRight { ldo, rdo, basel, lcand, rcand, left_valid: yes })
        },
        Phase::DecideRight { ldo, rdo, basel, lcand, rcand, left_valid } => {
            proof {
                lemma_rotation_algebra(basel);
                lemma_rotation_algebra(lcand);
            }
            if !left_valid && !yes {
                Next::Return(ldo, rdo)
            } else if !left_valid {
                Next::Wait(new_base(quad_arena, ldo, rdo, rcand, basel.sym()))
            } else if !yes {
                Next::Wait(new_base(quad_arena, ldo, rdo, basel.sym(), lcand.sym()))
            } else {
                Next::Wait(Phase::DecideCircle { ldo, rdo, basel, lcand, rcand })
            }
        },
        Phase::DecideCircle { ldo, rdo, basel, lcand, rcand } => {
            proof {
                lemma_rotation_algebra(basel);
                lemma_rotation_algebra(lcand);
            }
            if yes {
                Next::Wait(new_base(quad_arena, ldo, rdo, rcand, basel.sym()))
            } else {
                Next::Wait(new_base(quad_arena, ldo, rdo, basel.sym(), lcand.sym()))
            }
        },
        _ => Next::Wait(phase),
    }
}

/// The first question of a round of the zip-up over the base `basel`.
fn start_round(quad_arena: &QuadEdgeArena, ldo: EdgeRef, rdo: EdgeRef, basel: EdgeRef) -> (phase:
    Phase)
    requires
        edge_algebra(arena_quads(*quad_arena)),
        edge_ok(arena_quads(*quad_arena).len(), ldo),
        edge_ok(arena_quads(*quad_arena).len(), rdo),
        edge_ok(arena_quads(*quad_arena).len(), basel),
    ensures
        phase == zip_round(arena_quads(*quad_arena), ldo, rdo, basel),
        phase_ok(arena_quads(*quad_arena).len(), phase),
{
    proof {
        lemma_rotation_algebra(basel);
        lemma_neighbours(arena_quads(*quad_arena), basel.sym());
    }
    let lcand = basel.sym().onext(quad_arena);
    Phase::LeftValid { ldo, rdo, basel, lcand }
}

/// The first question of the right side's turn in a round of the zip-up.
fn turn_right(
    quad_arena: &QuadEdgeArena,
    ldo: EdgeRef,
    rdo: EdgeRef,
    basel: EdgeRef,
    lcand: EdgeRef,
) -> (phase: Phase)
    requires
        edge_algebra(arena_quads(*quad_arena)),
        edge_ok(arena_quads(*quad_arena).len(), ldo),
        edge_ok(arena_quads(*quad_arena).len(), rdo),
        edge_ok(arena_quads(*quad_arena).len(), basel),
        edge_ok(arena_quads(*quad_arena).len(), lcand),
    ensures
        phase == right_turn(arena_quads(*quad_arena), ldo, rdo, basel, lcand),
        phase_ok(arena_quads(*quad_arena).len(), phase),
{
    proof {
        lemma_neighbours(arena_quads(*quad_arena), basel);
    }
    let rcand = basel.oprev(quad_arena);
    Phase::RightValid { ldo, rdo, basel, lcand, rcand }
}

/// Connects `a` to `b` with a new base, and starts the next round of the
/// zip-up over it.
fn new_base(
    quad_arena: &mut QuadEdgeArena,
    ldo: EdgeRef,
    rdo: EdgeRef,
    a: EdgeRef,
    b: EdgeRef,
) -> (phase: Phase)
    requires
        edge_algebra(arena_quads(*old(quad_arena))),
        !exhausted(arena_quads(*old(quad_arena))),
        edge_ok(arena_quads(*old(quad_arena)).len(), ldo),
        edge_ok(arena_quads(*old(quad_arena)).len(), rdo),
        a.wf() && a.quad_edge < arena_quads(*old(quad_arena)).len(),
        b.wf() && b.quad_edge < arena_quads(*old(quad_arena)).len(),
        a.is_primal() && b.is_primal(),
    ensures
        arena_quads(*final(quad_arena)) == connected(arena_quads(*old(quad_arena)), a, b),
        phase == zip_round(
            arena_quads(*final(quad_arena)),
            ldo,
            rdo,
            next_edge(arena_quads(*old(quad_arena))),
        ),
        edge_algebra(arena_quads(*final(quad_arena))),
        arena_quads(*final(quad_arena)).len() == arena_quads(*old(quad_arena)).len() + 1,
        phase_ok(arena_quads(*final(quad_arena)).len(), phase),
{
    let basel = connect(quad_arena, a, b);
    start_round(quad_arena, ldo, rdo, basel)
}

/// Joins the two halves by the lower common tangent and starts the zip-up.
#[verifier::rlimit(30)]
fn join_halves(
    quad_arena: &mut QuadEdgeArena,
    ldo: EdgeRef,
    ldi: EdgeRef,
    rdi: EdgeRef,
    rdo: EdgeRef,
) -> (next: Next)
    requires
        edge_algebra(arena_quads(*old(quad_arena))),
        !exhausted(arena_quads(*old(quad_arena))),
        edge_ok(arena_quads(*old(quad_arena)).len(), ldo),
        edge_ok(arena_quads(*old(quad_arena)).len(), ldi),
        edge_ok(arena_quads(*old(quad_arena)).len(), rdi),
        edge_ok(arena_quads(*old(quad_arena)).len(), rdo),
    ensures
        (arena_quads(*final(quad_arena)), next) == tangent_found(
            arena_quads(*old(quad_arena)),
            ldo,
            ldi,
            rdi,
            rdo,
        ),
        edge_algebra(arena_quads(*final(quad_arena))),
        arena_quads(*final(quad_arena)).len() == arena_quads(*old(quad_arena)).len() + 1,
        next_ok(arena_quads(*final(quad_arena)).len(), next),
{
    proof {
        lemma_rotation_algebra(rdi);
    }
    let basel = connect(quad_arena, rdi.sym(), ldi);
    proof {
        lemma_rotation_algebra(basel);
    }
    let mut ldo = ldo;
    let mut rdo = rdo;
    if ldi.org(quad_arena) == ldo.org(quad_arena) {
        ldo = basel.sym();
    }
    if rdi.org(quad_arena) == rdo.org(quad_arena) {
        rdo = basel;
    }
    Next::Wait(start_round(quad_arena, ldo, rdo, basel))
}

impl View for Triangulator {
    type V = MachineState;

    closed spec fn view(&self) -> MachineState {
        MachineState {
            mesh: arena_quads(self.quad_arena),
            points: self.points@,
            stack: self.stack@,
            phase: self.phase,
        }
    }
}

impl Triangulator {
    /// Starts the construction over `points`, which are taken as they come:
    /// they are expected in lexicographic order and without duplicates. The
    /// construction runs up to its first question. With fewer than two
    /// points there is nothing to build.
    pub fn new(points: Vec<Point2>) -> (r: Result<Triangulator, TriangulationError>)
        ensures
            match r {
                Ok(t) => points@.len() >= 2 && t@ == initial(points@) && state_ok(t@),
                Err(e) => points@.len() < 2 && e == TriangulationError::InsufficientPoints,
            },
    {
        let n = points.len();
        if n < 2 {
            return Err(TriangulationError::InsufficientPoints);
        }
        let capacity = if n <= MAX_QUADS / 4 {
            4 * n
        } else {
            MAX_QUADS
        };
        let quad_arena = arena_with_capacity(capacity);
        let mut t = Triangulator {
            quad_arena,
            points,
            stack: Vec::new(),
            phase: Phase::Exhausted,
        };
        t.unwind(Task::Start { lo: 0, hi: n });
        Ok(t)
    }

    /// The question that the construction waits on, or `None` when it has
    /// ended.
    pub fn pending(&self) -> (query: Option<Query>)
        requires
            state_ok(self@),
        ensures
            query == query_of(self@.mesh, self@.phase),
    {
        let arena = &self.quad_arena;
        match self.phase {
            Phase::TriangleFirst { a, b } => Some(
                Query::CounterClockwise(a.org(arena), b.org(arena), b.dest(arena)),
            ),
            Phase::TriangleSecond { a, b } => Some(
                Query::CounterClockwise(a.org(arena), b.dest(arena), b.org(arena)),
            ),
            Phase::TangentLeft { ldo, ldi, rdi, rdo } => Some(
                Query::CounterClockwise(rdi.org(arena), ldi.org(arena), ldi.dest(arena)),
            ),
            Phase::TangentRight { ldo, ldi, rdi, rdo } => Some(
                Query::CounterClockwise(ldi.org(arena), rdi.dest(arena), rdi.org(arena)),
            ),
            Phase::LeftValid { ldo, rdo, basel, lcand } => Some(
                Query::CounterClockwise(lcand.dest(arena), basel.dest(arena), basel.org(arena)),
            ),
            Phase::LeftCircle { ldo, rdo, basel, lcand } => {
                proof {
                    lemma_neighbours(self@.mesh, lcand);
                }
                Some(
                    Query::InCircle(
                        basel.dest(arena),
                        basel.org(arena),
                        lcand.dest(arena),
                        lcand.onext(arena).dest(arena),
                    ),
                )
            },
            Phase::RightValid { ldo, rdo, basel, lcand, rcand } => Some(
                Query::CounterClockwise(rcand.dest(arena), basel.dest(arena), basel.org(arena)),
            ),
            Phase::RightCircle { ldo, rdo, basel, lcand, rcand } => {
                proof {
                    lemma_neighbours(self@.mesh, rcand);
                }
                Some(
                    Query::InCircle(
                        basel.dest(arena),
                        basel.org(arena),
                        rcand.dest(arena),
                        rcand.oprev(arena).dest(arena),
                    ),
                )
            },
            Phase::DecideLeft { ldo, rdo, basel, lcand, rcand } => Some(
                Query::CounterClockwise(lcand.dest(arena), basel.dest(arena), basel.org(arena)),
            ),
            Phase::DecideRight { ldo, rdo, basel, lcand, rcand, left_valid } => Some(
                Query::CounterClockwise(rcand.dest(arena), basel.dest(arena), basel.org(arena)),
            ),
            Phase::DecideCircle { ldo, rdo, basel, lcand, rcand } => Some(
                Query::InCircle(
                    lcand.dest(arena),
                    lcand.org(arena),
                    rcand.org(arena),
                    rcand.dest(arena),
                ),
            ),
            Phase::Done { ldo, rdo } => None,
            Phase::Exhausted => None,
        }
    }

    /// Takes the answer to the pending question and runs the construction
    /// up to its next question, or to its end.
    #[verifier::rlimit(30)]
    pub fn answer(&mut self, yes: bool)
        requires
            state_ok(old(self)@),
            query_of(old(self)@.mesh, old(self)@.phase) is Some,
        ensures
            final(self)@ == answered(old(self)@, yes),
            state_ok(final(self)@),
            final(self)@.points == old(self)@.points,
            marks_kept(old(self)@.mesh, final(self)@.mesh),
    {
        if arena_len(&self.quad_arena) > MAX_QUADS - 4 {
            self.phase = Phase::Exhausted;
            return ;
        }
        proof {
            lemma_advance_keeps_endpoints(self@.mesh, self@.points, self@.phase, yes);
            lemma_advance_keeps_hull(self@.mesh, self@.points, self@.stack, self@.phase, yes);
        }
        let next = advance_mesh(&mut self.quad_arena, self.phase, yes);
        proof {
            lemma_stack_ok_grows(
                old(self)@.mesh.len(),
                self@.mesh.len(),
                self@.points.len(),
                self@.stack,
            );
            lemma_hull_frames_kept(old(self)@.mesh, self@.mesh, self@.points, self@.stack);
        }
        match next {
            Next::Wait(phase) => {
                self.phase = phase;
            },
            Next::Return(left, right) => {
                let ghost before = self@.mesh;
                self.unwind(Task::Return { left, right });
                proof {
                    lemma_marks_kept_in_steps(old(self)@.mesh, before, self@.mesh);
                }
            },
        }
    }

    /// How the construction ended: `None` while a question is pending, the
    /// hull edges `(ldo, rdo)` when the mesh is built, and the failure when
    /// the arena was exhausted.
    pub fn outcome(&self) -> (r: Option<Result<(EdgeRef, EdgeRef), TriangulationError>>)
        ensures
            r == match self@.phase {
                Phase::Done { ldo, rdo } => Some(
                    Ok::<(EdgeRef, EdgeRef), TriangulationError>((ldo, rdo)),
                ),
                Phase::Exhausted => Some(
                    Err::<(EdgeRef, EdgeRef), TriangulationError>(
                        TriangulationError::AllocatorExhaustion,
                    ),
                ),
                _ => None,
            },
            state_ok(self@) ==> match r {
                Some(Ok((ldo, rdo))) => hull_ends(
                    self@.mesh,
                    self@.points,
                    (0, self@.points.len() as int),
                    ldo,
                    rdo,
                ),
                _ => true,
            },
    {
        match self.phase {
            Phase::Done { ldo, rdo } => Some(Ok((ldo, rdo))),
            Phase::Exhausted => Some(Err(TriangulationError::AllocatorExhaustion)),
            _ => None,
        }
    }

    /// The mesh as it stands.
    pub fn mesh(&self) -> (quad_arena: &QuadEdgeArena)
        ensures
            arena_quads(*quad_arena) == self@.mesh,
    {
        &self.quad_arena
    }

    /// The points that the construction runs over.
    pub fn points(&self) -> (points: &Vec<Point2>)
        ensures
            points@ == self@.points,
    {
        &self.points
    }

    /// The segments of the mesh as it stands: one for each quad-edge that is
    /// not deleted.
    pub fn edges(&self) -> (lines: Vec<(Point2, Point2)>)
        ensures
            lines@ == segments(self@.mesh),
            state_ok(self@) ==> forall|k: int|
                0 <= k < lines@.len() ==> self@.points.contains((#[trigger] lines@[k]).0)
                    && self@.points.contains(lines@[k].1),
    {
        proof {
            if state_ok(self@) {
                lemma_segments_join_points(self@.mesh, self@.points);
            }
        }
        let mut lines: Vec<(Point2, Point2)> = Vec::new();
        let n = arena_len(&self.quad_arena);
        let mut i: usize = 0;
        while i < n
            invariant
                i <= n,
                n == arena_quads(self.quad_arena).len(),
                lines@ == segments(arena_quads(self.quad_arena).take(i as int)),
            decreases n - i,
        {
            let quad = EdgeRef { quad_edge: i, idx: 0 }.quad_edge(&self.quad_arena);
            proof {
                let q = arena_quads(self.quad_arena);
                assert(q.take(i + 1).drop_last() =~= q.take(i as int));
                assert(q.take(i + 1).last() == q[i as int]);
            }
            if let Some(ends) = quad.get_points() {
                lines.push(ends);
            }
            i += 1;
        }
        proof {
            let q = arena_quads(self.quad_arena);
            assert(q.take(n as int) =~= q);
        }
        lines
    }

    /// Runs a task up to the next question, or to the end.
    fn unwind(&mut self, task: Task)
        requires
            unwinding_ok(old(self)@.mesh, old(self)@.points, old(self)@.stack, task),
        ensures
            final(self)@ == unwound(old(self)@.mesh, old(self)@.points, old(self)@.stack, task),
            state_ok(final(self)@),
            final(self)@.points == old(self)@.points,
            marks_kept(old(self)@.mesh, final(self)@.mesh),
    {
        let mut current = task;
        loop
            invariant
                self@.points == old(self)@.points,
                marks_kept(old(self)@.mesh, self@.mesh),
                unwinding_ok(self@.mesh, self@.points, self@.stack, current),
                unwound(self@.mesh, self@.points, self@.stack, current) == unwound(
                    old(self)@.mesh,
                    old(self)@.points,
                    old(self)@.stack,
                    task,
                ),
            decreases stack_weight(self@.stack) + task_weight(current),
        {
            if arena_len(&self.quad_arena) > MAX_QUADS - 4 {
                self.phase = Phase::Exhausted;
                return ;
            }
            let ghost before = self@.mesh;
            let next = match current {
                Task::Start { lo, hi } => self.start(lo, hi),
                Task::Return { left, right } => self.hand_back(left, right),
            };
            proof {
                lemma_marks_kept_in_steps(old(self)@.mesh, before, self@.mesh);
            }
            match next {
                Some(task) => {
                    current = task;
                },
                None => {
                    return ;
                },
            }
        }
    }

    /// Starts on the points from `lo` up to `hi`: builds the mesh of two
    /// points, asks the first question on three points, or splits more
    /// points and goes on with the left half.
    fn start(&mut self, lo: usize, hi: usize) -> (next: Option<Task>)
        requires
            unwinding_ok(
                old(self)@.mesh,
                old(self)@.points,
                old(self)@.stack,
                Task::Start { lo, hi },
            ),
            !exhausted(old(self)@.mesh),
        ensures
            unwinding_step(old(self)@, Task::Start { lo, hi }, final(self)@, next),
    {
        if hi - lo <= 2 {
            proof {
                lemma_start_on_two(self@.mesh, self@.points, self@.stack, lo, hi, self@.phase);
            }
            let a = join_two(&mut self.quad_arena, self.points[lo], self.points[lo + 1]);
            Some(Task::Return { left: a, right: a.sym() })
        } else if hi - lo == 3 {
            proof {
                lemma_start_on_three(self@.mesh, self@.points, self@.stack, lo, hi);
            }
            let (a, b) = join_three(
                &mut self.quad_arena,
                self.points[lo],
                self.points[lo + 1],
                self.points[lo + 2],
            );
            self.phase = Phase::TriangleFirst { a, b };
            None
        } else {
            proof {
                lemma_start_on_more(self@.mesh, self@.points, self@.stack, lo, hi, self@.phase);
            }
            self.stack.push(Frame::AwaitLeft { lo, hi });
            Some(Task::Start { lo, hi: lo + (hi - lo) / 2 })
        }
    }

    /// Hands the hull edges of a finished mesh to the merge that waits for
    /// them: the merge goes on with its right half, or with the search for
    /// the tangent. With no merge waiting the construction is at its end.
    fn hand_back(&mut self, left: EdgeRef, right: EdgeRef) -> (next: Option<Task>)
        requires
            unwinding_ok(
                old(self)@.mesh,
                old(self)@.points,
                old(self)@.stack,
                Task::Return { left, right },
            ),
            !exhausted(old(self)@.mesh),
        ensures
            unwinding_step(old(self)@, Task::Return { left, right }, final(self)@, next),
    {
        let ghost before = self@;
        proof {
            if before.stack.len() == 0 {
                lemma_hand_back_to_none(before.mesh, before.points, before.stack, left, right);
            } else if before.stack.last() is AwaitLeft {
                lemma_hand_back_left(
                    before.mesh,
                    before.points,
                    before.stack,
                    left,
                    right,
                    before.phase,
                );
            } else {
                lemma_hand_back_right(before.mesh, before.points, before.stack, left, right);
            }
        }
        match self.stack.pop() {
            None => {
                self.phase = Phase::Done { ldo: left, rdo: right };
                None
            },
            Some(Frame::AwaitLeft { lo, hi }) => {
                proof {
                    assert(self@.stack =~= before.stack.drop_last());
                    assert(frame_ok(
                        before.mesh.len(),
                        before.points.len(),
                        before.stack[before.stack.len() - 1],
                    ));
                }
                self.stack.push(Frame::AwaitRight { lo, hi, ldo: left, ldi: right });
                Some(Task::Start { lo: lo + (hi - lo) / 2, hi })
            },
            Some(Frame::AwaitRight { lo, hi, ldo, ldi }) => {
                proof {
                    assert(self@.stack =~= before.stack.drop_last());
                }
                self.phase = Phase::TangentLeft { ldo, ldi, rdi: left, rdo: right };
                None
            },
        }
    }
}

/// The base case of two points: one edge from `p0` to `p1`.
fn join_two(quad_arena: &mut QuadEdgeArena, p0: Point2, p1: Point2) -> (a: EdgeRef)
    requires
        edge_algebra(arena_quads(*old(quad_arena))),
        !exhausted(arena_quads(*old(quad_arena))),
    ensures
        arena_quads(*final(quad_arena)) == two_points(arena_quads(*old(quad_arena)), p0, p1),
        a == next_edge(arena_quads(*old(quad_arena))),
        edge_algebra(arena_quads(*final(quad_arena))),
        arena_quads(*final(quad_arena)).len() == arena_quads(*old(quad_arena)).len() + 1,
{
    proof {
        reveal(two_points);
    }
    let mut a = make_edge(quad_arena);
    a.set_org(quad_arena, p0);
    a.set_dest(quad_arena, p1);
    a
}

/// The first part of the base case of three points: an edge from `p0` to
/// `p1` and an edge from `p1` to `p2`, joined at `p1`.
fn join_three(quad_arena: &mut QuadEdgeArena, p0: Point2, p1: Point2, p2: Point2) -> (ab: (
    EdgeRef,
    EdgeRef,
))
    requires
        edge_algebra(arena_quads(*old(quad_arena))),
        !exhausted(arena_quads(*old(quad_arena))),
    ensures
        arena_quads(*final(quad_arena)) == three_points(arena_quads(*old(quad_arena)), p0, p1, p2),
        ab.0 == next_edge(arena_quads(*old(quad_arena))),
        ab.1 == next_edge(grown(arena_quads(*old(quad_arena)))),
        edge_algebra(arena_quads(*final(quad_arena))),
        arena_quads(*final(quad_arena)).len() == arena_quads(*old(quad_arena)).len() + 2,
{
    proof {
        reveal(three_points);
    }
    let mut a = make_edge(quad_arena);
    let mut b = make_edge(quad_arena);
    proof {
        lemma_rotation_algebra(a);
    }
    splice(quad_arena, a.sym(), b);
    a.set_org(quad_arena, p0);
    b.set_org(quad_arena, p1);
    a.set_dest(quad_arena, p1);
    b.set_dest(quad_arena, p2);
    (a, b)
}

} // verus!
