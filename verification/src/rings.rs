//! Origin rings: in an edge algebra Onext is a permutation of the slots, so
//! the edges around an origin form a cycle.

use crate::algebra::edge_algebra;
use crate::algebra::lemma_spliced;
use crate::algebra::lemma_spliced_slots;
use crate::algebra::spliced_onext;
use crate::edge::in_mesh;
use crate::edge::onext_of;
use crate::edge::oprev_of;
use crate::edge::spliced;
use crate::edge::EdgeRef;
use crate::edge::QuadEdge;
use vstd::prelude::*;
use vstd::set_lib::lemma_int_range;
use vstd::set_lib::lemma_len_subset;
use vstd::set_lib::set_int_range;

verus! {

/// Onext applied `k` times to `e`.
pub open spec fn onext_iter(q: Seq<QuadEdge>, e: EdgeRef, k: nat) -> EdgeRef
    decreases k,
{
    if k == 0 {
        e
    } else {
        onext_of(q, onext_iter(q, e, (k - 1) as nat))
    }
}

/// A number for each slot, which tells apart any two slots of the same kind.
pub open spec fn ring_code(e: EdgeRef) -> int {
    2 * e.quad_edge + e.idx / 2
}

/// In an edge algebra Oprev undoes Onext, and Onext undoes Oprev.
pub proof fn lemma_oprev_inverts_onext(q: Seq<QuadEdge>, e: EdgeRef)
    requires
        edge_algebra(q),
        in_mesh(q, e),
    ensures
        oprev_of(q, onext_of(q, e)) == e,
        onext_of(q, oprev_of(q, e)) == e,
{
    let r = e.rot();
    assert(in_mesh(q, r));
    assert(onext_of(q, onext_of(q, r).rot()).rot() == r);
    assert(in_mesh(q, onext_of(q, r)));
    let x = onext_of(q, onext_of(q, r).rot());
    assert(in_mesh(q, onext_of(q, r).rot()));
    assert(in_mesh(q, x));
}

/// In an edge algebra no two slots share their Onext.
pub proof fn lemma_onext_injective(q: Seq<QuadEdge>, x: EdgeRef, y: EdgeRef)
    requires
        edge_algebra(q),
        in_mesh(q, x),
        in_mesh(q, y),
        onext_of(q, x) == onext_of(q, y),
    ensures
        x == y,
{
    lemma_oprev_inverts_onext(q, x);
    lemma_oprev_inverts_onext(q, y);
}

/// Every edge reached by Onext from an edge of the mesh is in the mesh and
/// of the same kind.
pub proof fn lemma_onext_iter_stays(q: Seq<QuadEdge>, e: EdgeRef, k: nat)
    requires
        edge_algebra(q),
        in_mesh(q, e),
    ensures
        in_mesh(q, onext_iter(q, e, k)),
        onext_iter(q, e, k).is_primal() == e.is_primal(),
        0 <= ring_code(onext_iter(q, e, k)) < 2 * q.len(),
    decreases k,
{
    if k > 0 {
        lemma_onext_iter_stays(q, e, (k - 1) as nat);
        let x = onext_iter(q, e, (k - 1) as nat);
        assert(in_mesh(q, onext_of(q, x)));
        assert(onext_of(q, x).is_primal() == x.is_primal());
    }
}

proof fn lemma_repeat_rewinds(q: Seq<QuadEdge>, e: EdgeRef, i: nat, j: nat)
    requires
        edge_algebra(q),
        in_mesh(q, e),
        i <= j,
        onext_iter(q, e, i) == onext_iter(q, e, j),
    ensures
        onext_iter(q, e, (j - i) as nat) == e,
    decreases i,
{
    if i > 0 {
        let x = onext_iter(q, e, (i - 1) as nat);
        let y = onext_iter(q, e, (j - 1) as nat);
        lemma_onext_iter_stays(q, e, (i - 1) as nat);
        lemma_onext_iter_stays(q, e, (j - 1) as nat);
        lemma_onext_injective(q, x, y);
        lemma_repeat_rewinds(q, e, (i - 1) as nat, (j - 1) as nat);
    }
}

proof fn lemma_some_value_repeats(s: Seq<int>, n: nat)
    requires
        s.len() > n,
        forall|i: int| 0 <= i < s.len() ==> 0 <= #[trigger] s[i] < n,
    ensures
        exists|i: int, j: int| 0 <= i < j < s.len() && s[i] == s[j],
{
    if s.no_duplicates() {
        s.unique_seq_to_set();
        lemma_int_range(0, n as int);
        assert(s.to_set().subset_of(set_int_range(0, n as int))) by {
            assert forall|v: int| s.to_set().contains(v) implies set_int_range(
                0,
                n as int,
            ).contains(v) by {
                let i = choose|i: int| 0 <= i < s.len() && s[i] == v;
                assert(0 <= s[i] < n);
            }
        }
        lemma_len_subset(s.to_set(), set_int_range(0, n as int));
        assert(false);
    } else {
        let (i, j) = choose|i: int, j: int|
            0 <= i < s.len() && 0 <= j < s.len() && i != j && s[i] == s[j];
        if i < j {
            assert(0 <= i < j < s.len() && s[i] == s[j]);
        } else {
            assert(0 <= j < i < s.len() && s[j] == s[i]);
        }
    }
}

/// Onext cycles close: in an edge algebra, Onext applied over and over to an
/// edge of the mesh comes back to that edge, after at least one step and at
/// most as many steps as the mesh has slots of the edge's kind, which is two
/// for each quad-edge.
pub proof fn lemma_onext_cycle_closes(q: Seq<QuadEdge>, e: EdgeRef)
    requires
        edge_algebra(q),
        in_mesh(q, e),
    ensures
        exists|k: nat| 1 <= k <= 2 * q.len() && onext_iter(q, e, k) == e,
{
    let n = 2 * q.len();
    let s = Seq::new(n + 1, |k: int| ring_code(onext_iter(q, e, k as nat)));
    assert forall|k: int| 0 <= k < s.len() implies 0 <= #[trigger] s[k] < n by {
        lemma_onext_iter_stays(q, e, k as nat);
    }
    lemma_some_value_repeats(s, n);
    let (i, j) = choose|i: int, j: int| 0 <= i < j < s.len() && s[i] == s[j];
    let x = onext_iter(q, e, i as nat);
    let y = onext_iter(q, e, j as nat);
    lemma_onext_iter_stays(q, e, i as nat);
    lemma_onext_iter_stays(q, e, j as nat);
    assert(ring_code(x) == ring_code(y));
    assert(x.is_primal() == y.is_primal());
    assert(x.quad_edge == y.quad_edge && x.idx == y.idx);
    assert(x == y);
    lemma_repeat_rewinds(q, e, i as nat, j as nat);
    let k = (j - i) as nat;
    assert(1 <= k <= 2 * q.len() && onext_iter(q, e, k) == e);
}

/// `y` is on the origin ring of `x`: Onext leads from `x` to `y`.
pub open spec fn on_ring(q: Seq<QuadEdge>, x: EdgeRef, y: EdgeRef) -> bool {
    exists|k: nat| onext_iter(q, x, k) == y
}

/// The first number of steps, from `from` on and up to `to`, after which
/// Onext leads from `x` to `y`.
pub open spec fn first_hit(q: Seq<QuadEdge>, x: EdgeRef, y: EdgeRef, from: nat, to: nat) -> nat
    decreases to - from,
{
    if from >= to {
        to
    } else if onext_iter(q, x, from) == y {
        from
    } else {
        first_hit(q, x, y, from + 1, to)
    }
}

proof fn lemma_first_hit(q: Seq<QuadEdge>, x: EdgeRef, y: EdgeRef, from: nat, to: nat)
    requires
        from <= to,
        onext_iter(q, x, to) == y,
    ensures
        from <= first_hit(q, x, y, from, to) <= to,
        onext_iter(q, x, first_hit(q, x, y, from, to)) == y,
        forall|j: nat| from <= j < first_hit(q, x, y, from, to) ==> onext_iter(q, x, j) != y,
    decreases to - from,
{
    if from < to && onext_iter(q, x, from) != y {
        lemma_first_hit(q, x, y, from + 1, to);
    }
}

/// Steps of Onext add up.
pub proof fn lemma_onext_iter_adds(q: Seq<QuadEdge>, x: EdgeRef, i: nat, j: nat)
    ensures
        onext_iter(q, onext_iter(q, x, i), j) == onext_iter(q, x, i + j),
    decreases j,
{
    if j > 0 {
        lemma_onext_iter_adds(q, x, i, (j - 1) as nat);
    }
}

/// The Onext that Splice leaves to a slot of the kind of `a` and `b`: those
/// of `a` and `b` are exchanged, and the others are kept.
pub proof fn lemma_spliced_same_kind(q: Seq<QuadEdge>, a: EdgeRef, b: EdgeRef, x: EdgeRef)
    requires
        edge_algebra(q),
        in_mesh(q, a),
        in_mesh(q, b),
        in_mesh(q, x),
        a.is_primal() == b.is_primal(),
        x.is_primal() == a.is_primal(),
    ensures
        onext_of(spliced(q, a, b), x) == (if x == b {
            onext_of(q, a)
        } else if x == a {
            onext_of(q, b)
        } else {
            onext_of(q, x)
        }),
{
    lemma_spliced_slots(q, a, b);
    assert(onext_of(spliced(q, a, b), x) == spliced_onext(q, a, b, x));
    assert(onext_of(q, a).is_primal() == a.is_primal());
    assert(onext_of(q, b).is_primal() == b.is_primal());
    assert(in_mesh(q, onext_of(q, a)) && in_mesh(q, onext_of(q, b)));
}

/// The least number of steps after which Onext comes back to `x`.
pub open spec fn ring_length(q: Seq<QuadEdge>, x: EdgeRef) -> nat {
    first_hit(q, x, x, 1, 2 * q.len())
}

proof fn lemma_ring_length(q: Seq<QuadEdge>, x: EdgeRef)
    requires
        edge_algebra(q),
        in_mesh(q, x),
    ensures
        1 <= ring_length(q, x) <= 2 * q.len(),
        onext_iter(q, x, ring_length(q, x)) == x,
        forall|j: nat| 1 <= j < ring_length(q, x) ==> onext_iter(q, x, j) != x,
{
    lemma_onext_cycle_closes(q, x);
    let k = choose|k: nat| 1 <= k <= 2 * q.len() && onext_iter(q, x, k) == x;
    lemma_first_hit(q, x, x, 1, k);
    lemma_first_hit_is_stable(q, x, x, 1, k, 2 * q.len());
}

proof fn lemma_first_hit_is_stable(
    q: Seq<QuadEdge>,
    x: EdgeRef,
    y: EdgeRef,
    from: nat,
    to: nat,
    limit: nat,
)
    requires
        from <= to <= limit,
        onext_iter(q, x, to) == y,
    ensures
        first_hit(q, x, y, from, limit) == first_hit(q, x, y, from, to),
    decreases to - from,
{
    if from < to && onext_iter(q, x, from) != y {
        lemma_first_hit_is_stable(q, x, y, from + 1, to, limit);
    }
}

proof fn lemma_merged_steps(q: Seq<QuadEdge>, a: EdgeRef, b: EdgeRef, j: nat)
    requires
        edge_algebra(q),
        in_mesh(q, a),
        in_mesh(q, b),
        a.is_primal() == b.is_primal(),
        a != b,
        !on_ring(q, a, b),
        1 <= j <= ring_length(q, b),
    ensures
        onext_iter(spliced(q, a, b), a, j) == onext_iter(q, b, j),
    decreases j,
{
    let r = spliced(q, a, b);
    let n = ring_length(q, b);
    lemma_ring_length(q, b);
    if j == 1 {
        lemma_spliced_same_kind(q, a, b, a);
        assert(onext_iter(r, a, 1) == onext_of(r, onext_iter(r, a, 0)));
        assert(onext_iter(q, b, 1) == onext_of(q, onext_iter(q, b, 0)));
    } else {
        let i = (j - 1) as nat;
        lemma_merged_steps(q, a, b, i);
        let x = onext_iter(q, b, i);
        lemma_onext_iter_stays(q, b, i);
        assert(x != b);
        if x == a {
            lemma_onext_iter_adds(q, b, i, (n - i) as nat);
            assert(onext_iter(q, a, (n - i) as nat) == b);
        }
        lemma_spliced_same_kind(q, a, b, x);
    }
}

proof fn lemma_split_steps(q: Seq<QuadEdge>, a: EdgeRef, b: EdgeRef, k: nat, j: nat)
    requires
        edge_algebra(q),
        in_mesh(q, a),
        in_mesh(q, b),
        a.is_primal() == b.is_primal(),
        a != b,
        1 <= k < ring_length(q, a),
        onext_iter(q, a, k) == b,
    ensures
        exists|i: nat|
            (i == 0 || k < i < ring_length(q, a)) && onext_iter(q, a, i) == onext_iter(
                spliced(q, a, b),
                a,
                j,
            ),
    decreases j,
{
    let r = spliced(q, a, b);
    let n = ring_length(q, a);
    lemma_ring_length(q, a);
    if j == 0 {
        assert(onext_iter(q, a, 0) == onext_iter(r, a, 0));
    } else {
        lemma_split_steps(q, a, b, k, (j - 1) as nat);
        let x = onext_iter(r, a, (j - 1) as nat);
        let i = choose|i: nat| (i == 0 || k < i < n) && onext_iter(q, a, i) == x;
        lemma_onext_iter_stays(q, a, i);
        lemma_spliced_same_kind(q, a, b, x);
        if i == 0 {
            assert(onext_of(r, x) == onext_of(q, b));
            assert(onext_iter(q, a, k + 1) == onext_of(q, b));
            if k + 1 < n {
                assert(onext_iter(q, a, k + 1) == onext_iter(r, a, j));
            } else {
                assert(onext_iter(q, a, 0) == onext_iter(r, a, j));
            }
        } else {
            assert(x != a);
            if x == b {
                lemma_repeat_rewinds(q, a, k, i);
                assert(onext_iter(q, a, (i - k) as nat) == a);
            }
            assert(onext_of(r, x) == onext_of(q, x));
            assert(onext_iter(q, a, i + 1) == onext_of(q, x));
            if i + 1 < n {
                assert(onext_iter(q, a, i + 1) == onext_iter(r, a, j));
            } else {
                assert(onext_iter(q, a, 0) == onext_iter(r, a, j));
            }
        }
    }
}

/// Splice merges or splits: after `Splice(a, b)` on two edges of the same
/// kind, `b` is on the origin ring of `a` exactly when it was not before.
/// Two rings are merged into one, and one ring is split in two.
pub proof fn lemma_splice_merges_or_splits(q: Seq<QuadEdge>, a: EdgeRef, b: EdgeRef)
    requires
        edge_algebra(q),
        in_mesh(q, a),
        in_mesh(q, b),
        a.is_primal() == b.is_primal(),
        a != b,
    ensures
        on_ring(spliced(q, a, b), a, b) == !on_ring(q, a, b),
{
    let r = spliced(q, a, b);
    if on_ring(q, a, b) {
        let n = ring_length(q, a);
        lemma_ring_length(q, a);
        let far = choose|k: nat| onext_iter(q, a, k) == b;
        lemma_first_hit(q, a, b, 1, far);
        let k = first_hit(q, a, b, 1, far);
        if k >= n {
            lemma_onext_iter_adds(q, a, n, (k - n) as nat);
            assert(onext_iter(q, a, (k - n) as nat) == b);
        }
        assert forall|j: nat| onext_iter(r, a, j) != b by {
            lemma_split_steps(q, a, b, k, j);
            let i = choose|i: nat|
                (i == 0 || k < i < n) && onext_iter(q, a, i) == onext_iter(r, a, j);
            if i != 0 && onext_iter(q, a, i) == b {
                lemma_repeat_rewinds(q, a, k, i);
                assert(onext_iter(q, a, (i - k) as nat) == a);
            }
        }
    } else {
        lemma_ring_length(q, b);
        lemma_merged_steps(q, a, b, ring_length(q, b));
        assert(onext_iter(r, a, ring_length(q, b)) == b);
    }
}

} // verus!
