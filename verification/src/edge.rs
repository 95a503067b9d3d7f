//! The quad-edge mesh: records of four directed-edge slots held in an arena,
//! and the operators that navigate and edit them.
//!
//! Contracts are stated over the sequence of records that the arena holds
//! ([`arena_quads`]). Every operator that edits the mesh says which sequence
//! it leaves behind, as a function of the one it found.

use crate::algebra::detached;
use crate::algebra::edge_algebra;
use crate::algebra::lemma_connected;
use crate::algebra::lemma_deleted_edge_is_unlinked;
use crate::algebra::lemma_edge_deleted;
use crate::algebra::lemma_grown;
use crate::algebra::lemma_spliced;
use crate::algebra::lemma_swapped;
use crate::algebra::lemma_with_org;
use crate::arena::arena_alloc;
use crate::arena::arena_get;
use crate::arena::arena_get_mut;
use crate::arena::arena_quads;
use crate::arena::MAX_QUADS;
use crate::arena::arena_len;
use crate::point::Point2;
use crate::text::decimal;
use id_arena::Arena;
use vstd::array::spec_array_update;
use vstd::prelude::*;

verus! {

/// The arena that owns every quad-edge of a mesh.
pub type QuadEdgeArena = Arena<QuadEdge>;

/// One slot of one quad-edge: the quad-edge's position in the arena and the
/// slot's index, which is 0, 1, 2 or 3.
#[derive(Copy, Clone, Debug, PartialEq, Eq, Structural)]
pub struct EdgeRef {
    pub quad_edge: usize,
    pub idx: usize,
}

/// A directed-edge slot: the point at its tail, and the next edge
/// counter-clockwise around that point.
#[derive(Copy, Clone, Debug)]
pub struct Edge {
    pub origin: Point2,
    pub next: EdgeRef,
}

/// Four slots: the primal edge (0), the dual edge rotated by a quarter turn
/// (1), the reversed primal edge (2) and the reversed dual edge (3).
#[derive(Copy, Clone, Debug)]
pub struct QuadEdge {
    pub edges: [Edge; 4],
    pub deleted: bool,
}

impl QuadEdge {
    /// The origin and the destination of the primal edge, unless the
    /// quad-edge is deleted.
    pub open spec fn spec_get_points(&self) -> Option<(Point2, Point2)> {
        if self.deleted {
            None
        } else {
            Some((self.edges[0].origin, self.edges[2].origin))
        }
    }

    /// The origin and the destination of the primal edge, unless the
    /// quad-edge is deleted.
    #[verifier::when_used_as_spec(spec_get_points)]
    pub fn get_points(&self) -> (ends: Option<(Point2, Point2)>)
        ensures
            ends == self.spec_get_points(),
    {
        if self.deleted {
            None
        } else {
            Some((self.edges[0].origin, self.edges[2].origin))
        }
    }
}

/// The record `quad` with slot `i` replaced.
pub open spec fn slot_set(quad: QuadEdge, i: int, edge: Edge) -> QuadEdge {
    QuadEdge { edges: spec_array_update(quad.edges, i, edge), deleted: quad.deleted }
}

/// `e` names a slot of a record that the mesh holds.
pub open spec fn in_mesh(q: Seq<QuadEdge>, e: EdgeRef) -> bool {
    e.quad_edge < q.len() && e.idx < 4
}

/// The slot that `e` names.
pub open spec fn slot_of(q: Seq<QuadEdge>, e: EdgeRef) -> Edge {
    q[e.quad_edge as int].edges[e.idx as int]
}

/// The mesh with slot `e` replaced, and nothing else changed.
pub open spec fn with_slot(q: Seq<QuadEdge>, e: EdgeRef, edge: Edge) -> Seq<QuadEdge> {
    q.update(e.quad_edge as int, slot_set(q[e.quad_edge as int], e.idx as int, edge))
}

/// Onext: the next edge counter-clockwise around the origin of `e`.
pub open spec fn onext_of(q: Seq<QuadEdge>, e: EdgeRef) -> EdgeRef {
    slot_of(q, e).next
}

/// Oprev: the previous edge counter-clockwise around the origin of `e`.
pub open spec fn oprev_of(q: Seq<QuadEdge>, e: EdgeRef) -> EdgeRef {
    onext_of(q, e.rot()).rot()
}

/// Lnext: the next edge counter-clockwise around the face left of `e`.
pub open spec fn lnext_of(q: Seq<QuadEdge>, e: EdgeRef) -> EdgeRef {
    onext_of(q, e.inv_rot()).rot()
}

/// Rprev: the previous edge counter-clockwise around the face right of `e`.
pub open spec fn rprev_of(q: Seq<QuadEdge>, e: EdgeRef) -> EdgeRef {
    onext_of(q, e.sym())
}

/// The point at the tail of `e`.
pub open spec fn org_of(q: Seq<QuadEdge>, e: EdgeRef) -> Point2 {
    slot_of(q, e).origin
}

/// The point at the head of `e`.
pub open spec fn dest_of(q: Seq<QuadEdge>, e: EdgeRef) -> Point2 {
    org_of(q, e.sym())
}

/// The mesh with the Onext of `e` set to `next`.
pub open spec fn with_onext(q: Seq<QuadEdge>, e: EdgeRef, next: EdgeRef) -> Seq<QuadEdge> {
    with_slot(q, e, Edge { origin: org_of(q, e), next })
}

/// The mesh with the origin of `e` set to `vert`.
pub open spec fn with_org(q: Seq<QuadEdge>, e: EdgeRef, vert: Point2) -> Seq<QuadEdge> {
    with_slot(q, e, Edge { origin: vert, next: onext_of(q, e) })
}

/// The mesh with the destination of `e` set to `vert`.
pub open spec fn with_dest(q: Seq<QuadEdge>, e: EdgeRef, vert: Point2) -> Seq<QuadEdge> {
    with_org(q, e.sym(), vert)
}

/// Every Onext stored in the mesh names a slot of the mesh.
pub open spec fn well_linked(q: Seq<QuadEdge>) -> bool {
    forall|e: EdgeRef| in_mesh(q, e) ==> in_mesh(q, #[trigger] onext_of(q, e))
}

/// A quad-edge as it is when allocated at position `id`: the two primal
/// slots are loops on themselves, the two dual slots point at each other,
/// every origin is the zero point and the record is live.
pub open spec fn fresh_quad(id: usize) -> QuadEdge {
    QuadEdge {
        edges: [
            Edge { origin: Point2::spec_zero(), next: EdgeRef { quad_edge: id, idx: 0 } },
            Edge { origin: Point2::spec_zero(), next: EdgeRef { quad_edge: id, idx: 3 } },
            Edge { origin: Point2::spec_zero(), next: EdgeRef { quad_edge: id, idx: 2 } },
            Edge { origin: Point2::spec_zero(), next: EdgeRef { quad_edge: id, idx: 1 } },
        ],
        deleted: false,
    }
}

/// The reference to slot 0 of the record that the next allocation creates.
pub open spec fn next_edge(q: Seq<QuadEdge>) -> EdgeRef {
    EdgeRef { quad_edge: q.len() as usize, idx: 0 }
}

/// The mesh after one allocation.
pub open spec fn grown(q: Seq<QuadEdge>) -> Seq<QuadEdge> {
    q.push(fresh_quad(q.len() as usize))
}

/// The mesh after `Splice(a, b)`. With `alpha = Rot(Onext(a))` and
/// `beta = Rot(Onext(b))`, all read before anything is written, the Onext of
/// `a` and `b` are exchanged, and so are those of `alpha` and `beta`. The
/// four writes happen in the order `a`, `b`, `alpha`, `beta`.
#[verifier::opaque]
pub open spec fn spliced(q: Seq<QuadEdge>, a: EdgeRef, b: EdgeRef) -> Seq<QuadEdge> {
    let alpha = onext_of(q, a).rot();
    let beta = onext_of(q, b).rot();
    let a_next = onext_of(q, a);
    let b_next = onext_of(q, b);
    let alpha_next = onext_of(q, alpha);
    let beta_next = onext_of(q, beta);
    with_onext(
        with_onext(with_onext(with_onext(q, a, b_next), b, a_next), alpha, beta_next),
        beta,
        alpha_next,
    )
}

/// The mesh after `Connect(a, b)`: a new edge from the destination of `a` to
/// the origin of `b`, spliced in after `Lnext(a)` at its tail and after `b`
/// at its head. The new edge is [`next_edge`] of the mesh before.
#[verifier::opaque]
pub open spec fn connected(q: Seq<QuadEdge>, a: EdgeRef, b: EdgeRef) -> Seq<QuadEdge> {
    let e = next_edge(q);
    let q1 = grown(q);
    let q2 = with_org(q1, e, dest_of(q1, a));
    let q3 = with_dest(q2, e, org_of(q2, b));
    let q4 = spliced(q3, e, lnext_of(q3, a));
    spliced(q4, e.sym(), b)
}

/// The mesh with the record at position `i` marked as deleted.
pub open spec fn marked_deleted(q: Seq<QuadEdge>, i: int) -> Seq<QuadEdge> {
    q.update(i, QuadEdge { edges: q[i].edges, deleted: true })
}

/// The mesh after `DeleteEdge(e)`: `e` is spliced out at its tail, then at
/// its head, and its record is marked as deleted.
#[verifier::opaque]
pub open spec fn edge_deleted(q: Seq<QuadEdge>, e: EdgeRef) -> Seq<QuadEdge> {
    let q1 = spliced(q, e, oprev_of(q, e));
    let q2 = spliced(q1, e.sym(), oprev_of(q1, e.sym()));
    marked_deleted(q2, e.quad_edge as int)
}

/// The mesh after `Swap(e)`: `e` is turned counter-clockwise inside the
/// quadrilateral formed by the two faces beside it.
#[verifier::opaque]
pub open spec fn swapped(q: Seq<QuadEdge>, e: EdgeRef) -> Seq<QuadEdge> {
    let a = oprev_of(q, e);
    let b = oprev_of(q, e.sym());
    let q1 = spliced(q, e, a);
    let q2 = spliced(q1, e.sym(), b);
    let q3 = spliced(q2, e, lnext_of(q2, a));
    let q4 = spliced(q3, e.sym(), lnext_of(q3, b));
    let q5 = with_org(q4, e, dest_of(q4, a));
    with_dest(q5, e, dest_of(q5, b))
}

/// Allocates a quad-edge in its initial configuration and returns its
/// slot 0.
pub fn make_edge(quad_arena: &mut QuadEdgeArena) -> (e: EdgeRef)
    requires
        arena_quads(*old(quad_arena)).len() < MAX_QUADS,
    ensures
        arena_quads(*final(quad_arena)) == grown(arena_quads(*old(quad_arena))),
        e == next_edge(arena_quads(*old(quad_arena))),
        in_mesh(arena_quads(*final(quad_arena)), e),
        detached(arena_quads(*final(quad_arena)), e),
        well_linked(arena_quads(*old(quad_arena))) ==> well_linked(arena_quads(*final(quad_arena))),
        edge_algebra(arena_quads(*old(quad_arena))) ==> edge_algebra(
            arena_quads(*final(quad_arena)),
        ),
{
    let id = arena_len(quad_arena);
    let ref0 = EdgeRef { quad_edge: id, idx: 0 };
    let ref1 = EdgeRef { quad_edge: id, idx: 1 };
    let ref2 = EdgeRef { quad_edge: id, idx: 2 };
    let ref3 = EdgeRef { quad_edge: id, idx: 3 };
    let quad = QuadEdge {
        edges: [
            Edge { origin: Point2::default(), next: ref0 },
            Edge { origin: Point2::default(), next: ref3 },
            Edge { origin: Point2::default(), next: ref2 },
            Edge { origin: Point2::default(), next: ref1 },
        ],
        deleted: false,
    };
    proof {
        assert(quad.edges@ =~= fresh_quad(id).edges@);
        lemma_grown(arena_quads(*quad_arena));
    }
    let _ = arena_alloc(quad_arena, quad);
    ref0
}

/// The text that shows an edge reference: the position of its quad-edge
/// and the index of its slot, each written in decimal.
pub open spec fn edge_text(e: EdgeRef) -> Seq<char> {
    "(Id: "@ + decimal(e.quad_edge as nat) + ", Index: "@ + decimal(e.idx as nat) + ")"@
}

impl EdgeRef {
    /// A text that shows the reference, for messages.
    pub fn to_string(&self) -> (text: String)
        ensures
            text@ == edge_text(*self),
    {
        let mut text = String::from_str("(Id: ");
        crate::text::append_decimal(&mut text, self.quad_edge);
        text.append(", Index: ");
        crate::text::append_decimal(&mut text, self.idx);
        text.append(")");
        proof {
            assert(text@ =~= edge_text(*self));
        }
        text
    }

    /// The index is one of the four slots.
    pub open spec fn wf(self) -> bool {
        self.idx < 4
    }

    /// The slot is one of the two primal ones.
    pub open spec fn is_primal(self) -> bool {
        self.idx == 0 || self.idx == 2
    }

    /// Rot, as a function of the reference alone.
    pub open spec fn spec_rot(&self) -> EdgeRef {
        EdgeRef { quad_edge: self.quad_edge, idx: ((self.idx + 1) % 4) as usize }
    }

    /// InvRot, as a function of the reference alone.
    pub open spec fn spec_inv_rot(&self) -> EdgeRef {
        EdgeRef { quad_edge: self.quad_edge, idx: ((self.idx + 3) % 4) as usize }
    }

    /// Sym, as a function of the reference alone.
    pub open spec fn spec_sym(&self) -> EdgeRef {
        EdgeRef { quad_edge: self.quad_edge, idx: ((self.idx + 2) % 4) as usize }
    }

    /// The record that holds the slot.
    pub fn quad_edge<'a, 'b>(&'a self, quad_arena: &'b QuadEdgeArena) -> (quad: &'b QuadEdge)
        requires
            self.quad_edge < arena_quads(*quad_arena).len(),
        ensures
            *quad == arena_quads(*quad_arena)[self.quad_edge as int],
    {
        arena_get(quad_arena, self.quad_edge).unwrap()
    }

    /// The record that holds the slot, for writing.
    pub fn quad_edge_mut<'a, 'b>(&'a self, quad_arena: &'b mut QuadEdgeArena) -> (quad:
        &'b mut QuadEdge)
        requires
            self.quad_edge < arena_quads(*old(quad_arena)).len(),
        ensures
            *quad == arena_quads(*old(quad_arena))[self.quad_edge as int],
            arena_quads(*final(quad_arena)) == arena_quads(*old(quad_arena)).update(
                self.quad_edge as int,
                *final(quad),
            ),
    {
        arena_get_mut(quad_arena, self.quad_edge).unwrap()
    }

    /// The slot itself.
    pub fn raw_edge<'a, 'b>(&'a self, quad_arena: &'b QuadEdgeArena) -> (edge: &'b Edge)
        requires
            in_mesh(arena_quads(*quad_arena), *self),
        ensures
            *edge == slot_of(arena_quads(*quad_arena), *self),
    {
        let quad = self.quad_edge(quad_arena);
        &quad.edges[self.idx]
    }

    /// The slot itself, for writing.
    pub fn raw_edge_mut<'a, 'b>(&'a self, quad_arena: &'b mut QuadEdgeArena) -> (edge:
        &'b mut Edge)
        requires
            in_mesh(arena_quads(*old(quad_arena)), *self),
        ensures
            *edge == slot_of(arena_quads(*old(quad_arena)), *self),
            arena_quads(*final(quad_arena)) == with_slot(
                arena_quads(*old(quad_arena)),
                *self,
                *final(edge),
            ),
    {
        let quad = self.quad_edge_mut(quad_arena);
        &mut quad.edges[self.idx]
    }

    /// Onext: the next edge counter-clockwise around the origin.
    pub fn onext(&self, quad_arena: &QuadEdgeArena) -> (next: EdgeRef)
        requires
            in_mesh(arena_quads(*quad_arena), *self),
        ensures
            next == onext_of(arena_quads(*quad_arena), *self),
    {
        let edge = self.raw_edge(quad_arena);
        edge.next
    }

    /// Sets Onext, and nothing else.
    pub fn set_onext(&self, quad_arena: &mut QuadEdgeArena, next: EdgeRef)
        requires
            in_mesh(arena_quads(*old(quad_arena)), *self),
        ensures
            arena_quads(*final(quad_arena)) == with_onext(
                arena_quads(*old(quad_arena)),
                *self,
                next,
            ),
            arena_quads(*final(quad_arena)).len() == arena_quads(*old(quad_arena)).len(),
    {
        let edge = self.raw_edge_mut(quad_arena);
        edge.next = next;
    }

    /// Oprev: `Rot(Onext(Rot(e)))`.
    pub fn oprev(&self, quad_arena: &QuadEdgeArena) -> (prev: EdgeRef)
        requires
            in_mesh(arena_quads(*quad_arena), *self),
            well_linked(arena_quads(*quad_arena)),
        ensures
            prev == oprev_of(arena_quads(*quad_arena), *self),
            in_mesh(arena_quads(*quad_arena), prev),
    {
        self.rot().onext(quad_arena).rot()
    }

    /// Rot: the slot one further, modulo 4.
    #[verifier::when_used_as_spec(spec_rot)]
    pub fn rot(&self) -> (r: EdgeRef)
        requires
            self.wf(),
        ensures
            r == self.spec_rot(),
    {
        EdgeRef { quad_edge: self.quad_edge, idx: (self.idx + 1) % 4 }
    }

    /// InvRot: the slot three further, modulo 4.
    #[verifier::when_used_as_spec(spec_inv_rot)]
    pub fn inv_rot(&self) -> (r: EdgeRef)
        requires
            self.wf(),
        ensures
            r == self.spec_inv_rot(),
    {
        EdgeRef { quad_edge: self.quad_edge, idx: (self.idx + 3) % 4 }
    }

    /// Sym: the slot two further, modulo 4.
    #[verifier::when_used_as_spec(spec_sym)]
    pub fn sym(&self) -> (r: EdgeRef)
        requires
            self.wf(),
        ensures
            r == self.spec_sym(),
    {
        EdgeRef { quad_edge: self.quad_edge, idx: (self.idx + 2) % 4 }
    }

    /// Lnext: `Rot(Onext(InvRot(e)))`.
    pub fn lnext(&self, quad_arena: &QuadEdgeArena) -> (next: EdgeRef)
        requires
            in_mesh(arena_quads(*quad_arena), *self),
            well_linked(arena_quads(*quad_arena)),
        ensures
            next == lnext_of(arena_quads(*quad_arena), *self),
            in_mesh(arena_quads(*quad_arena), next),
    {
        self.inv_rot().onext(quad_arena).rot()
    }

    /// Rprev: `Onext(Sym(e))`.
    pub fn rprev(&self, quad_arena: &QuadEdgeArena) -> (prev: EdgeRef)
        requires
            in_mesh(arena_quads(*quad_arena), *self),
        ensures
            prev == rprev_of(arena_quads(*quad_arena), *self),
    {
        self.sym().onext(quad_arena)
    }

    /// The origin and the destination.
    pub fn org_dest(&self, quad_arena: &QuadEdgeArena) -> (ends: (Point2, Point2))
        requires
            in_mesh(arena_quads(*quad_arena), *self),
        ensures
            ends.0 == org_of(arena_quads(*quad_arena), *self),
            ends.1 == dest_of(arena_quads(*quad_arena), *self),
    {
        (self.org(quad_arena), self.dest(quad_arena))
    }

    /// The origin: the point at the tail.
    pub fn org(&self, quad_arena: &QuadEdgeArena) -> (vert: Point2)
        requires
            in_mesh(arena_quads(*quad_arena), *self),
        ensures
            vert == org_of(arena_quads(*quad_arena), *self),
    {
        let edge = self.raw_edge(quad_arena);
        edge.origin
    }

    /// Sets the origin, and nothing else.
    pub fn set_org(&mut self, quad_arena: &mut QuadEdgeArena, vert: Point2)
        requires
            in_mesh(arena_quads(*old(quad_arena)), *old(self)),
        ensures
            *final(self) == *old(self),
            arena_quads(*final(quad_arena)) == with_org(
                arena_quads(*old(quad_arena)),
                *old(self),
                vert,
            ),
            arena_quads(*final(quad_arena)).len() == arena_quads(*old(quad_arena)).len(),
            well_linked(arena_quads(*old(quad_arena))) ==> well_linked(
                arena_quads(*final(quad_arena)),
            ),
            edge_algebra(arena_quads(*old(quad_arena))) ==> edge_algebra(
                arena_quads(*final(quad_arena)),
            ),
    {
        proof {
            lemma_with_org(arena_quads(*quad_arena), *self, vert);
        }
        let edge = self.raw_edge_mut(quad_arena);
        edge.origin = vert;
    }

    /// The destination: the origin of `Sym(e)`.
    pub fn dest(&self, quad_arena: &QuadEdgeArena) -> (vert: Point2)
        requires
            in_mesh(arena_quads(*quad_arena), *self),
        ensures
            vert == dest_of(arena_quads(*quad_arena), *self),
    {
        self.sym().org(quad_arena)
    }

    /// Sets the destination, and nothing else.
    pub fn set_dest(&mut self, quad_arena: &mut QuadEdgeArena, vert: Point2)
        requires
            in_mesh(arena_quads(*old(quad_arena)), *old(self)),
        ensures
            *final(self) == *old(self),
            arena_quads(*final(quad_arena)) == with_dest(
                arena_quads(*old(quad_arena)),
                *old(self),
                vert,
            ),
            arena_quads(*final(quad_arena)).len() == arena_quads(*old(quad_arena)).len(),
            well_linked(arena_quads(*old(quad_arena))) ==> well_linked(
                arena_quads(*final(quad_arena)),
            ),
            edge_algebra(arena_quads(*old(quad_arena))) ==> edge_algebra(
                arena_quads(*final(quad_arena)),
            ),
    {
        let mut s = self.sym();
        s.set_org(quad_arena, vert);
    }
}

/// Splice: exchanges the Onext of `a` and `b`, and those of
/// `Rot(Onext(a))` and `Rot(Onext(b))`.
pub fn splice(quad_arena: &mut QuadEdgeArena, a: EdgeRef, b: EdgeRef)
    requires
        well_linked(arena_quads(*old(quad_arena))),
        in_mesh(arena_quads(*old(quad_arena)), a),
        in_mesh(arena_quads(*old(quad_arena)), b),
    ensures
        arena_quads(*final(quad_arena)) == spliced(arena_quads(*old(quad_arena)), a, b),
        arena_quads(*final(quad_arena)).len() == arena_quads(*old(quad_arena)).len(),
        well_linked(arena_quads(*final(quad_arena))),
        edge_algebra(arena_quads(*old(quad_arena))) && a.is_primal() == b.is_primal()
            ==> edge_algebra(arena_quads(*final(quad_arena))),
{
    proof {
        reveal(spliced);
        lemma_spliced(arena_quads(*quad_arena), a, b);
    }
    let alpha = a.onext(quad_arena).rot();
    let beta = b.onext(quad_arena).rot();

    let a_next = a.onext(quad_arena);
    let b_next = b.onext(quad_arena);
    let alpha_next = alpha.onext(quad_arena);
    let beta_next = beta.onext(quad_arena);

    a.set_onext(quad_arena, b_next);
    b.set_onext(quad_arena, a_next);
    alpha.set_onext(quad_arena, beta_next);
    beta.set_onext(quad_arena, alpha_next);
}

/// Swap: turns `edge` counter-clockwise inside the quadrilateral formed by
/// the two faces beside it.
pub fn swap(quad_arena: &mut QuadEdgeArena, edge: &mut EdgeRef)
    requires
        well_linked(arena_quads(*old(quad_arena))),
        in_mesh(arena_quads(*old(quad_arena)), *old(edge)),
    ensures
        *final(edge) == *old(edge),
        arena_quads(*final(quad_arena)) == swapped(arena_quads(*old(quad_arena)), *old(edge)),
        arena_quads(*final(quad_arena)).len() == arena_quads(*old(quad_arena)).len(),
        well_linked(arena_quads(*final(quad_arena))),
        edge_algebra(arena_quads(*old(quad_arena))) ==> edge_algebra(
            arena_quads(*final(quad_arena)),
        ),
{
    proof {
        reveal(swapped);
        lemma_swapped(arena_quads(*quad_arena), *edge);
    }
    let a = edge.oprev(quad_arena);
    let b = edge.sym().oprev(quad_arena);
    splice(quad_arena, *edge, a);
    splice(quad_arena, edge.sym(), b);
    let a_lnext = a.lnext(quad_arena);
    splice(quad_arena, *edge, a_lnext);
    let b_lnext = b.lnext(quad_arena);
    splice(quad_arena, edge.sym(), b_lnext);
    let a_dest = a.dest(quad_arena);
    edge.set_org(quad_arena, a_dest);
    let b_dest = b.dest(quad_arena);
    edge.set_dest(quad_arena, b_dest);
}

/// Connect: adds an edge from the destination of `a` to the origin of `b`,
/// so that `a`, the new edge and `b` share their left face.
pub fn connect(quad_arena: &mut QuadEdgeArena, a: EdgeRef, b: EdgeRef) -> (e: EdgeRef)
    requires
        well_linked(arena_quads(*old(quad_arena))),
        in_mesh(arena_quads(*old(quad_arena)), a),
        in_mesh(arena_quads(*old(quad_arena)), b),
        arena_quads(*old(quad_arena)).len() < MAX_QUADS,
    ensures
        arena_quads(*final(quad_arena)) == connected(arena_quads(*old(quad_arena)), a, b),
        e == next_edge(arena_quads(*old(quad_arena))),
        arena_quads(*final(quad_arena)).len() == arena_quads(*old(quad_arena)).len() + 1,
        org_of(arena_quads(*final(quad_arena)), e) == dest_of(arena_quads(*old(quad_arena)), a),
        dest_of(arena_quads(*final(quad_arena)), e) == org_of(arena_quads(*old(quad_arena)), b),
        well_linked(arena_quads(*final(quad_arena))),
        edge_algebra(arena_quads(*old(quad_arena))) && a.is_primal() && b.is_primal()
            ==> edge_algebra(arena_quads(*final(quad_arena))),
{
    proof {
        reveal(connected);
        lemma_connected(arena_quads(*quad_arena), a, b);
    }
    let mut edge = make_edge(quad_arena);
    let a_dest = a.dest(quad_arena);
    edge.set_org(quad_arena, a_dest);
    let b_org = b.org(quad_arena);
    edge.set_dest(quad_arena, b_org);
    let a_lnext = a.lnext(quad_arena);
    splice(quad_arena, edge, a_lnext);
    splice(quad_arena, edge.sym(), b);
    edge
}

/// DeleteEdge: unlinks `edge` at both ends and marks its record as deleted.
/// The record stays in the arena.
pub fn delete_edge(quad_arena: &mut QuadEdgeArena, edge: EdgeRef)
    requires
        well_linked(arena_quads(*old(quad_arena))),
        in_mesh(arena_quads(*old(quad_arena)), edge),
    ensures
        arena_quads(*final(quad_arena)) == edge_deleted(arena_quads(*old(quad_arena)), edge),
        arena_quads(*final(quad_arena)).len() == arena_quads(*old(quad_arena)).len(),
        arena_quads(*final(quad_arena))[edge.quad_edge as int].deleted,
        well_linked(arena_quads(*final(quad_arena))),
        edge_algebra(arena_quads(*old(quad_arena))) ==> edge_algebra(
            arena_quads(*final(quad_arena)),
        ) && detached(arena_quads(*final(quad_arena)), edge),
{
    proof {
        reveal(edge_deleted);
        lemma_edge_deleted(arena_quads(*quad_arena), edge);
        if edge_algebra(arena_quads(*quad_arena)) {
            lemma_deleted_edge_is_unlinked(arena_quads(*quad_arena), edge);
        }
    }
    let prev = edge.oprev(quad_arena);
    splice(quad_arena, edge, prev);
    let sym_prev = edge.sym().oprev(quad_arena);
    splice(quad_arena, edge.sym(), sym_prev);
    let quad = edge.quad_edge_mut(quad_arena);
    quad.deleted = true;
}

} // verus!
