//! The edge algebra: what holds of every mesh that the operators of
//! [`crate::edge`] build, and the laws of the rotation family and of Splice.

use crate::edge::connected;
use crate::edge::dest_of;
use crate::edge::edge_deleted;
use crate::edge::grown;
use crate::edge::in_mesh;
use crate::edge::lnext_of;
use crate::edge::marked_deleted;
use crate::edge::next_edge;
use crate::edge::onext_of;
use crate::edge::oprev_of;
use crate::edge::org_of;
use crate::edge::rprev_of;
use crate::edge::slot_of;
use crate::edge::spliced;
use crate::edge::swapped;
use crate::edge::well_linked;
use crate::edge::with_dest;
use crate::edge::with_onext;
use crate::edge::with_org;
use crate::edge::with_slot;
use crate::edge::Edge;
use crate::edge::EdgeRef;
use crate::edge::QuadEdge;
use crate::point::Point2;
use vstd::prelude::*;

verus! {

/// The mesh is an edge algebra: it is well linked, Onext keeps to the same
/// kind of slot (primal or dual), and `Rot ∘ Onext` is its own inverse.
pub open spec fn edge_algebra(q: Seq<QuadEdge>) -> bool {
    &&& well_linked(q)
    &&& forall|e: EdgeRef|
        in_mesh(q, e) ==> (#[trigger] onext_of(q, e)).is_primal() == e.is_primal()
    &&& forall|e: EdgeRef|
        in_mesh(q, e) ==> onext_of(q, (#[trigger] onext_of(q, e)).rot()).rot() == e
}

/// `a` and `b` are independent: neither is `Rot(Onext(..))` of itself or of
/// the other, so that the four slots which `Splice(a, b)` writes fall into
/// the pair `a`, `b` and a pair apart from it.
pub open spec fn independent(q: Seq<QuadEdge>, a: EdgeRef, b: EdgeRef) -> bool {
    let alpha = onext_of(q, a).rot();
    let beta = onext_of(q, b).rot();
    alpha != a && alpha != b && beta != a && beta != b
}

/// The Onext of `e` after `Splice(a, b)`, as the four writes leave it.
pub open spec fn spliced_onext(q: Seq<QuadEdge>, a: EdgeRef, b: EdgeRef, e: EdgeRef) -> EdgeRef {
    let alpha = onext_of(q, a).rot();
    let beta = onext_of(q, b).rot();
    if e == beta {
        onext_of(q, alpha)
    } else if e == alpha {
        onext_of(q, beta)
    } else if e == b {
        onext_of(q, a)
    } else if e == a {
        onext_of(q, b)
    } else {
        onext_of(q, e)
    }
}

/// Rotation algebra: Sym is its own inverse, four Rots are the identity, and
/// Rot undoes InvRot.
pub proof fn lemma_rotation_algebra(e: EdgeRef)
    requires
        e.wf(),
    ensures
        e.sym().sym() == e,
        e.rot().rot().rot().rot() == e,
        e.inv_rot().rot() == e,
        e.rot().inv_rot() == e,
        e.rot().rot() == e.sym(),
        e.rot().rot().rot() == e.inv_rot(),
        e.rot().wf() && e.sym().wf() && e.inv_rot().wf(),
        e.sym() != e,
        e.rot().is_primal() != e.is_primal(),
        e.sym().is_primal() == e.is_primal(),
{
}

/// Two meshes of the same length that agree on every slot and on every
/// deletion mark are the same mesh.
pub proof fn lemma_mesh_equal(q1: Seq<QuadEdge>, q2: Seq<QuadEdge>)
    requires
        q1.len() == q2.len(),
        q1.len() <= usize::MAX,
        forall|e: EdgeRef| in_mesh(q1, e) ==> slot_of(q1, e) == slot_of(q2, e),
        forall|i: int| 0 <= i < q1.len() ==> q1[i].deleted == q2[i].deleted,
    ensures
        q1 == q2,
{
    assert forall|i: int| 0 <= i < q1.len() implies q1[i] == q2[i] by {
        assert forall|j: int| 0 <= j < 4 implies q1[i].edges@[j] == q2[i].edges@[j] by {
            let e = EdgeRef { quad_edge: i as usize, idx: j as usize };
            assert(in_mesh(q1, e));
            assert(slot_of(q1, e) == slot_of(q2, e));
        }
        assert(q1[i].edges@ =~= q2[i].edges@);
        assert(q1[i].edges == q2[i].edges);
    }
    assert(q1 =~= q2);
}

/// Replacing one slot changes that slot and nothing else.
pub proof fn lemma_with_slot(q: Seq<QuadEdge>, e: EdgeRef, edge: Edge)
    requires
        in_mesh(q, e),
    ensures
        with_slot(q, e, edge).len() == q.len(),
        slot_of(with_slot(q, e, edge), e) == edge,
        forall|x: EdgeRef|
            in_mesh(q, x) && x != e ==> #[trigger] slot_of(with_slot(q, e, edge), x) == slot_of(
                q,
                x,
            ),
        forall|i: int|
            0 <= i < q.len() ==> (#[trigger] with_slot(q, e, edge)[i]).deleted == q[i].deleted,
{
}

/// Setting an Onext changes that Onext and nothing else.
pub proof fn lemma_with_onext(q: Seq<QuadEdge>, e: EdgeRef, next: EdgeRef)
    requires
        in_mesh(q, e),
    ensures
        with_onext(q, e, next).len() == q.len(),
        forall|x: EdgeRef|
            in_mesh(q, x) ==> #[trigger] onext_of(with_onext(q, e, next), x) == (if x == e {
                next
            } else {
                onext_of(q, x)
            }),
        forall|x: EdgeRef|
            in_mesh(q, x) ==> #[trigger] org_of(with_onext(q, e, next), x) == org_of(q, x),
        forall|i: int|
            0 <= i < q.len() ==> (#[trigger] with_onext(q, e, next)[i]).deleted == q[i].deleted,
{
    lemma_with_slot(q, e, Edge { origin: org_of(q, e), next });
}

/// Setting an origin changes that origin and nothing else.
pub proof fn lemma_with_org(q: Seq<QuadEdge>, e: EdgeRef, vert: Point2)
    requires
        in_mesh(q, e),
    ensures
        with_org(q, e, vert).len() == q.len(),
        forall|x: EdgeRef|
            in_mesh(q, x) ==> #[trigger] onext_of(with_org(q, e, vert), x) == onext_of(q, x),
        forall|x: EdgeRef|
            in_mesh(q, x) ==> #[trigger] org_of(with_org(q, e, vert), x) == (if x == e {
                vert
            } else {
                org_of(q, x)
            }),
        forall|i: int|
            0 <= i < q.len() ==> (#[trigger] with_org(q, e, vert)[i]).deleted == q[i].deleted,
        well_linked(q) ==> well_linked(with_org(q, e, vert)),
        edge_algebra(q) ==> edge_algebra(with_org(q, e, vert)),
{
    lemma_with_slot(q, e, Edge { origin: vert, next: onext_of(q, e) });
    let r = with_org(q, e, vert);
    assert forall|x: EdgeRef| in_mesh(r, x) implies (#[trigger] onext_of(r, x)) == onext_of(
        q,
        x,
    ) by {
        assert(in_mesh(q, x));
    }
}

/// An allocation adds one record in its initial configuration and changes
/// no other.
pub proof fn lemma_grown(q: Seq<QuadEdge>)
    requires
        q.len() < usize::MAX,
    ensures
        grown(q).len() == q.len() + 1,
        in_mesh(grown(q), next_edge(q)),
        next_edge(q).is_primal(),
        detached(grown(q), next_edge(q)),
        forall|x: EdgeRef| in_mesh(q, x) ==> #[trigger] slot_of(grown(q), x) == slot_of(q, x),
        forall|x: EdgeRef| in_mesh(q, x) ==> in_mesh(grown(q), x),
        well_linked(q) ==> well_linked(grown(q)),
        edge_algebra(q) ==> edge_algebra(grown(q)),
{
    let r = grown(q);
    let id = q.len() as usize;
    assert forall|x: EdgeRef| in_mesh(r, x) && !in_mesh(q, x) implies (#[trigger] onext_of(r, x))
        == (EdgeRef {
        quad_edge: id,
        idx: if x.idx == 0 {
            0usize
        } else if x.idx == 1 {
            3usize
        } else if x.idx == 2 {
            2usize
        } else {
            1usize
        },
    }) by {
        assert(x.quad_edge == id);
    }
    assert forall|x: EdgeRef| in_mesh(q, x) implies #[trigger] onext_of(r, x) == onext_of(q, x) by {
        assert(slot_of(r, x) == slot_of(q, x));
    }
    if well_linked(q) {
        assert forall|x: EdgeRef| in_mesh(r, x) implies in_mesh(r, #[trigger] onext_of(r, x)) by {
            if in_mesh(q, x) {
                assert(onext_of(r, x) == onext_of(q, x));
            }
        }
    }
    if edge_algebra(q) {
        assert forall|x: EdgeRef| in_mesh(r, x) implies (#[trigger] onext_of(r, x)).is_primal()
            == x.is_primal() by {
            if in_mesh(q, x) {
                assert(onext_of(r, x) == onext_of(q, x));
            }
        }
        assert forall|x: EdgeRef| in_mesh(r, x) implies onext_of(
            r,
            (#[trigger] onext_of(r, x)).rot(),
        ).rot() == x by {
            if in_mesh(q, x) {
                assert(onext_of(r, x) == onext_of(q, x));
                let y = onext_of(q, x).rot();
                assert(in_mesh(q, y));
                assert(onext_of(r, y) == onext_of(q, y));
            } else {
                let y = onext_of(r, x).rot();
                assert(in_mesh(r, y) && !in_mesh(q, y));
            }
        }
    }
}

/// What Splice leaves behind, slot by slot.
pub proof fn lemma_spliced_slots(q: Seq<QuadEdge>, a: EdgeRef, b: EdgeRef)
    requires
        well_linked(q),
        in_mesh(q, a),
        in_mesh(q, b),
    ensures
        spliced(q, a, b).len() == q.len(),
        forall|x: EdgeRef|
            in_mesh(q, x) ==> #[trigger] onext_of(spliced(q, a, b), x) == spliced_onext(
                q,
                a,
                b,
                x,
            ),
        forall|x: EdgeRef| in_mesh(q, x) ==> #[trigger] org_of(spliced(q, a, b), x) == org_of(q, x),
        forall|i: int|
            0 <= i < q.len() ==> (#[trigger] spliced(q, a, b)[i]).deleted == q[i].deleted,
{
    reveal(spliced);
    let alpha = onext_of(q, a).rot();
    let beta = onext_of(q, b).rot();
    let a_next = onext_of(q, a);
    let b_next = onext_of(q, b);
    let alpha_next = onext_of(q, alpha);
    let beta_next = onext_of(q, beta);
    let q1 = with_onext(q, a, b_next);
    let q2 = with_onext(q1, b, a_next);
    let q3 = with_onext(q2, alpha, beta_next);
    let q4 = with_onext(q3, beta, alpha_next);
    lemma_with_onext(q, a, b_next);
    lemma_with_onext(q1, b, a_next);
    lemma_with_onext(q2, alpha, beta_next);
    lemma_with_onext(q3, beta, alpha_next);
    assert(q4 == spliced(q, a, b));
    assert forall|x: EdgeRef| in_mesh(q, x) implies #[trigger] onext_of(q4, x) == spliced_onext(
        q,
        a,
        b,
        x,
    ) by {
        assert(in_mesh(q1, x) && in_mesh(q2, x) && in_mesh(q3, x));
        assert(onext_of(q1, x) == if x == a { b_next } else { onext_of(q, x) });
        assert(onext_of(q2, x) == if x == b { a_next } else { onext_of(q1, x) });
        assert(onext_of(q3, x) == if x == alpha { beta_next } else { onext_of(q2, x) });
        assert(onext_of(q4, x) == if x == beta { alpha_next } else { onext_of(q3, x) });
    }
    assert forall|x: EdgeRef| in_mesh(q, x) implies #[trigger] org_of(q4, x) == org_of(q, x) by {
        assert(in_mesh(q1, x) && in_mesh(q2, x) && in_mesh(q3, x));
        assert(org_of(q1, x) == org_of(q, x));
        assert(org_of(q2, x) == org_of(q1, x));
        assert(org_of(q3, x) == org_of(q2, x));
        assert(org_of(q4, x) == org_of(q3, x));
    }
    assert forall|i: int| 0 <= i < q.len() implies (#[trigger] q4[i]).deleted == q[i].deleted by {
        assert(q1[i].deleted == q[i].deleted);
        assert(q2[i].deleted == q1[i].deleted);
        assert(q3[i].deleted == q2[i].deleted);
    }
}

/// Splice keeps the mesh well linked, and keeps it an edge algebra when `a`
/// and `b` are of the same kind.
#[verifier::rlimit(30)]
pub proof fn lemma_spliced(q: Seq<QuadEdge>, a: EdgeRef, b: EdgeRef)
    requires
        well_linked(q),
        in_mesh(q, a),
        in_mesh(q, b),
    ensures
        spliced(q, a, b).len() == q.len(),
        well_linked(spliced(q, a, b)),
        edge_algebra(q) && a.is_primal() == b.is_primal() ==> edge_algebra(spliced(q, a, b)),
{
    lemma_spliced_slots(q, a, b);
    let r = spliced(q, a, b);
    let alpha = onext_of(q, a).rot();
    let beta = onext_of(q, b).rot();
    assert(in_mesh(q, alpha) && in_mesh(q, beta));
    assert forall|x: EdgeRef| in_mesh(r, x) implies in_mesh(r, #[trigger] onext_of(r, x)) by {
        assert(onext_of(r, x) == spliced_onext(q, a, b, x));
        assert(in_mesh(q, onext_of(q, x)));
    }
    if edge_algebra(q) && a.is_primal() == b.is_primal() {
        assert(onext_of(q, alpha).rot() == a);
        assert(onext_of(q, beta).rot() == b);
        assert forall|x: EdgeRef| in_mesh(r, x) implies (#[trigger] onext_of(r, x)).is_primal()
            == x.is_primal() by {
            assert(onext_of(r, x) == spliced_onext(q, a, b, x));
            assert(onext_of(q, x).is_primal() == x.is_primal());
        }
        assert forall|x: EdgeRef| in_mesh(r, x) implies onext_of(
            r,
            (#[trigger] onext_of(r, x)).rot(),
        ).rot() == x by {
            assert(onext_of(r, x) == spliced_onext(q, a, b, x));
            let y = onext_of(r, x).rot();
            assert(in_mesh(q, onext_of(q, x)));
            assert(in_mesh(q, y));
            assert(onext_of(r, y) == spliced_onext(q, a, b, y));
            let z = onext_of(q, x).rot();
            assert(onext_of(q, z).rot() == x);
            if x == beta {
            } else if x == alpha {
            } else if x == b {
            } else if x == a {
            } else {
                assert(y == z);
                assert(in_mesh(q, onext_of(q, z)));
            }
        }
    }
}

/// In an edge algebra two edges of the same kind are independent.
pub proof fn lemma_same_kind_independent(q: Seq<QuadEdge>, a: EdgeRef, b: EdgeRef)
    requires
        edge_algebra(q),
        in_mesh(q, a),
        in_mesh(q, b),
        a.is_primal() == b.is_primal(),
    ensures
        independent(q, a, b),
{
    assert(onext_of(q, a).is_primal() == a.is_primal());
    assert(onext_of(q, b).is_primal() == b.is_primal());
    assert(in_mesh(q, onext_of(q, a)));
    assert(in_mesh(q, onext_of(q, b)));
}

/// Splice involution: for independent `a` and `b`, `Splice(a, b)` done twice
/// leaves the mesh as it was.
pub proof fn lemma_splice_involution(q: Seq<QuadEdge>, a: EdgeRef, b: EdgeRef)
    requires
        well_linked(q),
        in_mesh(q, a),
        in_mesh(q, b),
        independent(q, a, b),
        q.len() <= usize::MAX,
    ensures
        spliced(spliced(q, a, b), a, b) == q,
{
    let r = spliced(q, a, b);
    lemma_spliced_slots(q, a, b);
    lemma_spliced(q, a, b);
    lemma_spliced_slots(r, a, b);
    let rr = spliced(r, a, b);
    let alpha = onext_of(q, a).rot();
    let beta = onext_of(q, b).rot();
    assert(in_mesh(q, alpha) && in_mesh(q, beta));
    assert(onext_of(r, a) == spliced_onext(q, a, b, a));
    assert(onext_of(r, b) == spliced_onext(q, a, b, b));
    assert(onext_of(r, alpha) == spliced_onext(q, a, b, alpha));
    assert(onext_of(r, beta) == spliced_onext(q, a, b, beta));
    assert forall|e: EdgeRef| in_mesh(rr, e) implies slot_of(rr, e) == slot_of(q, e) by {
        assert(onext_of(rr, e) == spliced_onext(r, a, b, e));
        assert(onext_of(r, e) == spliced_onext(q, a, b, e));
        assert(org_of(rr, e) == org_of(r, e));
        assert(org_of(r, e) == org_of(q, e));
    }
    assert forall|i: int| 0 <= i < rr.len() implies rr[i].deleted == q[i].deleted by {
        assert(r[i].deleted == q[i].deleted);
    }
    lemma_mesh_equal(rr, q);
}

/// The neighbours of an edge of a well-linked mesh are in the mesh, and in
/// an edge algebra they are of the same kind as the edge.
pub proof fn lemma_neighbours(q: Seq<QuadEdge>, e: EdgeRef)
    requires
        well_linked(q),
        in_mesh(q, e),
    ensures
        in_mesh(q, e.rot()) && in_mesh(q, e.sym()) && in_mesh(q, e.inv_rot()),
        in_mesh(q, onext_of(q, e)),
        in_mesh(q, oprev_of(q, e)),
        in_mesh(q, lnext_of(q, e)),
        in_mesh(q, rprev_of(q, e)),
        edge_algebra(q) ==> {
            &&& onext_of(q, e).is_primal() == e.is_primal()
            &&& oprev_of(q, e).is_primal() == e.is_primal()
            &&& lnext_of(q, e).is_primal() == e.is_primal()
            &&& rprev_of(q, e).is_primal() == e.is_primal()
        },
{
    assert(in_mesh(q, onext_of(q, e)));
    assert(in_mesh(q, onext_of(q, e.rot())));
    assert(in_mesh(q, onext_of(q, e.inv_rot())));
    assert(in_mesh(q, onext_of(q, e.sym())));
    if edge_algebra(q) {
        assert(onext_of(q, e).is_primal() == e.is_primal());
        assert(onext_of(q, e.rot()).is_primal() == e.rot().is_primal());
        assert(onext_of(q, e.inv_rot()).is_primal() == e.inv_rot().is_primal());
        assert(onext_of(q, e.sym()).is_primal() == e.sym().is_primal());
    }
}

/// Connect keeps the mesh well linked, and keeps it an edge algebra when `a`
/// and `b` are primal.
pub proof fn lemma_connected(q: Seq<QuadEdge>, a: EdgeRef, b: EdgeRef)
    requires
        well_linked(q),
        in_mesh(q, a),
        in_mesh(q, b),
        q.len() < usize::MAX,
    ensures
        connected(q, a, b).len() == q.len() + 1,
        well_linked(connected(q, a, b)),
        edge_algebra(q) && a.is_primal() && b.is_primal() ==> edge_algebra(connected(q, a, b)),
        org_of(connected(q, a, b), next_edge(q)) == dest_of(q, a),
        dest_of(connected(q, a, b), next_edge(q)) == org_of(q, b),
        forall|x: EdgeRef| in_mesh(q, x) ==> #[trigger] org_of(connected(q, a, b), x) == org_of(q, x),
{
    reveal(connected);
    let e = next_edge(q);
    let q1 = grown(q);
    lemma_grown(q);
    let q2 = with_org(q1, e, dest_of(q1, a));
    lemma_with_org(q1, e, dest_of(q1, a));
    let q3 = with_dest(q2, e, org_of(q2, b));
    lemma_with_org(q2, e.sym(), org_of(q2, b));
    let l = lnext_of(q3, a);
    lemma_neighbours(q3, a);
    let q4 = spliced(q3, e, l);
    lemma_spliced(q3, e, l);
    lemma_spliced_slots(q3, e, l);
    lemma_spliced(q4, e.sym(), b);
    lemma_spliced_slots(q4, e.sym(), b);
    let r = connected(q, a, b);
    assert forall|x: EdgeRef| in_mesh(q3, x) implies #[trigger] org_of(r, x) == org_of(q3, x) by {
        assert(org_of(q4, x) == org_of(q3, x));
        assert(org_of(r, x) == org_of(q4, x));
    }
    assert(org_of(q1, a.sym()) == org_of(q, a.sym())) by {
        assert(slot_of(q1, a.sym()) == slot_of(q, a.sym()));
    }
    assert(org_of(q1, b) == org_of(q, b)) by {
        assert(slot_of(q1, b) == slot_of(q, b));
    }
    assert forall|x: EdgeRef| in_mesh(q, x) implies #[trigger] org_of(r, x) == org_of(q, x) by {
        assert(slot_of(q1, x) == slot_of(q, x));
        assert(org_of(q2, x) == org_of(q1, x));
        assert(org_of(q3, x) == org_of(q2, x));
        assert(org_of(r, x) == org_of(q3, x));
    }
}

/// Marking a record as deleted changes no slot.
pub proof fn lemma_marked_deleted(q: Seq<QuadEdge>, i: int)
    requires
        0 <= i < q.len(),
    ensures
        marked_deleted(q, i).len() == q.len(),
        forall|x: EdgeRef|
            in_mesh(q, x) ==> #[trigger] slot_of(marked_deleted(q, i), x) == slot_of(q, x),
        well_linked(q) ==> well_linked(marked_deleted(q, i)),
        edge_algebra(q) ==> edge_algebra(marked_deleted(q, i)),
{
    let r = marked_deleted(q, i);
    assert forall|x: EdgeRef| in_mesh(r, x) implies (#[trigger] onext_of(r, x)) == onext_of(
        q,
        x,
    ) by {
        assert(slot_of(r, x) == slot_of(q, x));
    }
}

/// Splicing an edge with its Oprev keeps the mesh well linked, and keeps it
/// an edge algebra.
pub proof fn lemma_spliced_with_oprev(q: Seq<QuadEdge>, e: EdgeRef)
    requires
        well_linked(q),
        in_mesh(q, e),
    ensures
        spliced(q, e, oprev_of(q, e)).len() == q.len(),
        well_linked(spliced(q, e, oprev_of(q, e))),
        edge_algebra(q) ==> edge_algebra(spliced(q, e, oprev_of(q, e))),
{
    lemma_neighbours(q, e);
    lemma_spliced(q, e, oprev_of(q, e));
}

/// DeleteEdge keeps the mesh well linked, and keeps it an edge algebra.
pub proof fn lemma_edge_deleted(q: Seq<QuadEdge>, e: EdgeRef)
    requires
        well_linked(q),
        in_mesh(q, e),
    ensures
        edge_deleted(q, e).len() == q.len(),
        well_linked(edge_deleted(q, e)),
        edge_algebra(q) ==> edge_algebra(edge_deleted(q, e)),
{
    reveal(edge_deleted);
    let q1 = spliced(q, e, oprev_of(q, e));
    lemma_spliced_with_oprev(q, e);
    let q2 = spliced(q1, e.sym(), oprev_of(q1, e.sym()));
    lemma_spliced_with_oprev(q1, e.sym());
    lemma_marked_deleted(q2, e.quad_edge as int);
}

/// Splicing `e` with the Lnext of `a` keeps the mesh well linked, and keeps
/// it an edge algebra when `e` and `a` are of the same kind.
pub proof fn lemma_spliced_with_lnext(q: Seq<QuadEdge>, e: EdgeRef, a: EdgeRef)
    requires
        well_linked(q),
        in_mesh(q, e),
        in_mesh(q, a),
    ensures
        spliced(q, e, lnext_of(q, a)).len() == q.len(),
        well_linked(spliced(q, e, lnext_of(q, a))),
        edge_algebra(q) && a.is_primal() == e.is_primal() ==> edge_algebra(
            spliced(q, e, lnext_of(q, a)),
        ),
{
    lemma_neighbours(q, a);
    lemma_spliced(q, e, lnext_of(q, a));
}

/// Swap keeps the mesh well linked, and keeps it an edge algebra.
pub proof fn lemma_swapped(q: Seq<QuadEdge>, e: EdgeRef)
    requires
        well_linked(q),
        in_mesh(q, e),
    ensures
        swapped(q, e).len() == q.len(),
        well_linked(swapped(q, e)),
        edge_algebra(q) ==> edge_algebra(swapped(q, e)),
{
    reveal(swapped);
    let s = e.sym();
    let a = oprev_of(q, e);
    let b = oprev_of(q, s);
    lemma_neighbours(q, e);
    lemma_neighbours(q, s);
    let q1 = spliced(q, e, a);
    lemma_spliced(q, e, a);
    let q2 = spliced(q1, s, b);
    lemma_spliced(q1, s, b);
    let q3 = spliced(q2, e, lnext_of(q2, a));
    lemma_spliced_with_lnext(q2, e, a);
    let q4 = spliced(q3, s, lnext_of(q3, b));
    lemma_spliced_with_lnext(q3, s, b);
    let q5 = with_org(q4, e, dest_of(q4, a));
    lemma_with_org(q4, e, dest_of(q4, a));
    lemma_with_org(q5, s, dest_of(q5, b));
}

/// The edge `e` is linked to nothing but its own record: `e` and its Sym
/// are loops, and its Rot and its InvRot point at each other. This is how a
/// freshly allocated primal edge is linked.
pub open spec fn detached(q: Seq<QuadEdge>, e: EdgeRef) -> bool {
    &&& onext_of(q, e) == e
    &&& onext_of(q, e.rot()) == e.inv_rot()
    &&& onext_of(q, e.sym()) == e.sym()
    &&& onext_of(q, e.inv_rot()) == e.rot()
}

/// An edge that is its own Onext in an edge algebra has a dual slot that
/// points at the opposite dual slot.
proof fn lemma_loop_has_dual_pair(q: Seq<QuadEdge>, e: EdgeRef)
    requires
        edge_algebra(q),
        in_mesh(q, e),
        onext_of(q, e) == e,
    ensures
        onext_of(q, e.rot()) == e.inv_rot(),
{
    let r = e.rot();
    assert(in_mesh(q, r));
    assert(in_mesh(q, onext_of(q, r)));
    assert(onext_of(q, onext_of(q, e).rot()).rot() == e);
}

/// DeleteEdge unlinks: once an edge of an edge algebra is deleted, its
/// record is marked, the edge is linked to nothing but its own record, and
/// no slot of another record has an Onext in it.
#[verifier::rlimit(30)]
pub proof fn lemma_deleted_edge_is_unlinked(q: Seq<QuadEdge>, e: EdgeRef)
    requires
        edge_algebra(q),
        in_mesh(q, e),
    ensures
        edge_deleted(q, e)[e.quad_edge as int].deleted,
        detached(edge_deleted(q, e), e),
        forall|x: EdgeRef|
            in_mesh(q, x) && x.quad_edge != e.quad_edge ==> (#[trigger] onext_of(
                edge_deleted(q, e),
                x,
            )).quad_edge != e.quad_edge,
{
    reveal(edge_deleted);
    lemma_neighbours(q, e);
    let p = oprev_of(q, e);
    let q1 = spliced(q, e, p);
    lemma_spliced_slots(q, e, p);
    lemma_spliced_with_oprev(q, e);
    assert(onext_of(q, p) == e) by {
        assert(in_mesh(q, e.rot()));
        assert(onext_of(q, onext_of(q, e.rot()).rot()).rot() == e.rot());
    }
    assert(onext_of(q1, e) == spliced_onext(q, e, p, e));
    assert(onext_of(q, e).is_primal() == e.is_primal());
    assert(onext_of(q1, e) == e);
    let s = e.sym();
    lemma_neighbours(q1, s);
    let sp = oprev_of(q1, s);
    let q2 = spliced(q1, s, sp);
    lemma_spliced_slots(q1, s, sp);
    lemma_spliced_with_oprev(q1, s);
    assert(onext_of(q1, sp) == s) by {
        assert(in_mesh(q1, s.rot()));
        assert(onext_of(q1, onext_of(q1, s.rot()).rot()).rot() == s.rot());
    }
    assert(onext_of(q2, s) == spliced_onext(q1, s, sp, s));
    assert(onext_of(q1, s).is_primal() == s.is_primal());
    assert(onext_of(q2, s) == s);
    assert(onext_of(q2, e) == spliced_onext(q1, s, sp, e));
    assert(onext_of(q2, e) == e);
    lemma_loop_has_dual_pair(q2, e);
    lemma_loop_has_dual_pair(q2, s);
    let r = edge_deleted(q, e);
    lemma_marked_deleted(q2, e.quad_edge as int);
    assert(slot_of(r, e) == slot_of(q2, e));
    assert(slot_of(r, e.rot()) == slot_of(q2, e.rot()));
    assert(slot_of(r, e.sym()) == slot_of(q2, e.sym()));
    assert(slot_of(r, e.inv_rot()) == slot_of(q2, e.inv_rot()));
    assert(detached(q2, e));
    assert forall|x: EdgeRef| in_mesh(q, x) && x.quad_edge != e.quad_edge implies (
    #[trigger] onext_of(r, x)).quad_edge != e.quad_edge by {
        assert(slot_of(r, x) == slot_of(q2, x));
        let y = onext_of(q2, x);
        assert(in_mesh(q2, y));
        if y.quad_edge == e.quad_edge {
            let z = if y == e {
                e
            } else if y == e.sym() {
                e.sym()
            } else if y == e.rot() {
                e.inv_rot()
            } else {
                e.rot()
            };
            assert(onext_of(q2, z) == y);
            assert(onext_of(q2, onext_of(q2, x).rot()).rot() == x);
            assert(onext_of(q2, onext_of(q2, z).rot()).rot() == z);
        }
    }
}

/// Every record of `before` is a record of `after`, with the same origins.
pub open spec fn origins_kept(before: Seq<QuadEdge>, after: Seq<QuadEdge>) -> bool {
    &&& before.len() <= after.len()
    &&& forall|x: EdgeRef| in_mesh(before, x) ==> #[trigger] org_of(after, x) == org_of(before, x)
}

/// Every record of `before` is a record of `after`, with the same origins
/// and the same deletion mark.
pub open spec fn records_kept(before: Seq<QuadEdge>, after: Seq<QuadEdge>) -> bool {
    &&& origins_kept(before, after)
    &&& forall|i: int| 0 <= i < before.len() ==> (#[trigger] after[i]).deleted == before[i].deleted
}

/// Splice changes no origin and no deletion mark.
pub proof fn lemma_spliced_keeps_records(q: Seq<QuadEdge>, a: EdgeRef, b: EdgeRef)
    requires
        well_linked(q),
        in_mesh(q, a),
        in_mesh(q, b),
    ensures
        records_kept(q, spliced(q, a, b)),
{
    lemma_spliced_slots(q, a, b);
}

/// Connect changes no origin and no deletion mark of the records it finds,
/// and the record it adds is not deleted.
pub proof fn lemma_connected_keeps_records(q: Seq<QuadEdge>, a: EdgeRef, b: EdgeRef)
    requires
        well_linked(q),
        in_mesh(q, a),
        in_mesh(q, b),
        q.len() < usize::MAX,
    ensures
        records_kept(q, connected(q, a, b)),
        !connected(q, a, b)[q.len() as int].deleted,
{
    reveal(connected);
    let e = next_edge(q);
    let q1 = grown(q);
    lemma_grown(q);
    let q2 = with_org(q1, e, dest_of(q1, a));
    lemma_with_org(q1, e, dest_of(q1, a));
    let q3 = with_dest(q2, e, org_of(q2, b));
    lemma_with_org(q2, e.sym(), org_of(q2, b));
    lemma_neighbours(q3, a);
    let q4 = spliced(q3, e, lnext_of(q3, a));
    lemma_spliced(q3, e, lnext_of(q3, a));
    lemma_spliced_slots(q3, e, lnext_of(q3, a));
    lemma_spliced_slots(q4, e.sym(), b);
    lemma_connected(q, a, b);
    let r = connected(q, a, b);
    assert forall|i: int| 0 <= i <= q.len() implies (#[trigger] r[i]).deleted == q1[i].deleted by {
        assert(q2[i].deleted == q1[i].deleted);
        assert(q3[i].deleted == q2[i].deleted);
        assert(q4[i].deleted == q3[i].deleted);
        assert(r[i].deleted == q4[i].deleted);
    }
}

/// DeleteEdge changes no origin, and no deletion mark but that of the
/// record it deletes.
pub proof fn lemma_edge_deleted_keeps_origins(q: Seq<QuadEdge>, e: EdgeRef)
    requires
        well_linked(q),
        in_mesh(q, e),
    ensures
        edge_deleted(q, e).len() == q.len(),
        origins_kept(q, edge_deleted(q, e)),
        forall|i: int|
            0 <= i < q.len() ==> (#[trigger] edge_deleted(q, e)[i]).deleted == (q[i].deleted || i
                == e.quad_edge),
{
    reveal(edge_deleted);
    let q1 = spliced(q, e, oprev_of(q, e));
    lemma_neighbours(q, e);
    lemma_spliced(q, e, oprev_of(q, e));
    lemma_spliced_slots(q, e, oprev_of(q, e));
    lemma_neighbours(q1, e.sym());
    let q2 = spliced(q1, e.sym(), oprev_of(q1, e.sym()));
    lemma_spliced_slots(q1, e.sym(), oprev_of(q1, e.sym()));
    lemma_marked_deleted(q2, e.quad_edge as int);
    let r = edge_deleted(q, e);
    assert forall|x: EdgeRef| in_mesh(q, x) implies #[trigger] org_of(r, x) == org_of(q, x) by {
        assert(org_of(q1, x) == org_of(q, x));
        assert(org_of(q2, x) == org_of(q1, x));
        assert(slot_of(r, x) == slot_of(q2, x));
    }
    assert forall|i: int| 0 <= i < q.len() implies (#[trigger] r[i]).deleted == (q[i].deleted || i
        == e.quad_edge) by {
        assert(q1[i].deleted == q[i].deleted);
        assert(q2[i].deleted == q1[i].deleted);
    }
}

} // verus!
