//! Points of the plane.

use crate::binary64::equal_numbers;
use crate::binary64::is_finite;
use crate::binary64::is_finite_number;
use crate::binary64::lemma_ordinal_orders_values;
use crate::binary64::near;
use crate::binary64::near_numbers;
use crate::binary64::ordinal;
use crate::binary64::same_number;
use crate::binary64::SIGN_BIT;
use crate::error::TriangulationError;
use crate::order::stable_sort;
use vstd::prelude::*;
use vstd::relations::sorted_by;
use vstd::relations::total_ordering;
use vstd::seq_lib::lemma_sorted_unique;
use vstd::seq_lib::group_to_multiset_ensures;
use vstd::std_specs::cmp::PartialEqSpecImpl;

verus! {

/// A point of the plane.
///
/// Each coordinate is held as the IEEE-754 binary64 bit pattern of its value,
/// so that a point is a pair of plain integers. The frame has its origin at
/// the top left, with `x` growing to the right and `y` growing downwards:
///
/// ```text
/// 0,0 ------- 1,0
///  |           |
///  |           |
/// 0,1 ------- 1,1
/// ```
#[derive(Copy, Clone, Debug)]
pub struct Point2 {
    pub x: u64,
    pub y: u64,
}

/// Two points are at the same place: their coordinates are the same numbers.
pub open spec fn same_point(a: Point2, b: Point2) -> bool {
    same_number(a.x, b.x) && same_number(a.y, b.y)
}

/// Two points coincide: they are the same pair of bit patterns, or they are
/// at the same place.
pub open spec fn coincide(a: Point2, b: Point2) -> bool {
    a == b || same_point(a, b)
}

impl Point2 {
    /// The point at the origin of the frame: both coordinates are `+0.0`.
    pub open spec fn spec_zero() -> Point2 {
        Point2 { x: 0, y: 0 }
    }
}

impl Default for Point2 {
    fn default() -> (p: Point2)
        ensures
            p == Point2::spec_zero(),
    {
        Point2 { x: 0, y: 0 }
    }
}

impl PartialEq for Point2 {
    /// Two points are equal when their coordinates are the same numbers.
    fn eq(&self, other: &Point2) -> (r: bool) {
        let same_x = equal_numbers(self.x, other.x);
        let same_y = equal_numbers(self.y, other.y);
        same_x && same_y
    }
}

impl PartialEqSpecImpl for Point2 {
    open spec fn obeys_eq_spec() -> bool {
        true
    }

    open spec fn eq_spec(&self, other: &Point2) -> bool {
        same_point(*self, *other)
    }
}

/// The lexicographic order of points: by `x`, then by `y`. Two points whose
/// coordinates are the same numbers precede each other.
pub open spec fn precedes(a: Point2, b: Point2) -> bool {
    ordinal(a.x) < ordinal(b.x) || (ordinal(a.x) == ordinal(b.x) && ordinal(a.y) <= ordinal(b.y))
}

/// Two points are nearly equal: in each coordinate both values are finite
/// and differ by at most `2^-51`, which is twice the machine epsilon.
pub open spec fn near_points(a: Point2, b: Point2) -> bool {
    near(a.x, b.x) && near(a.y, b.y)
}

/// Both coordinates of the point are finite.
pub open spec fn is_finite_point(p: Point2) -> bool {
    is_finite(p.x) && is_finite(p.y)
}

/// Every point of the sequence has finite coordinates.
pub open spec fn all_finite(s: Seq<Point2>) -> bool {
    forall|i: int| 0 <= i < s.len() ==> is_finite_point(#[trigger] s[i])
}

/// The sequence is in lexicographic order.
pub open spec fn ordered(s: Seq<Point2>) -> bool {
    forall|i: int, j: int| 0 <= i < j < s.len() ==> precedes(#[trigger] s[i], #[trigger] s[j])
}

/// No point of the sequence is nearly equal to the one before it.
pub open spec fn spaced(s: Seq<Point2>) -> bool {
    forall|i: int| 0 < i < s.len() ==> !near_points(s[i - 1], #[trigger] s[i])
}

/// The ordered sequence `s` with `p` put in, behind every point that
/// precedes it.
pub open spec fn inserted(s: Seq<Point2>, p: Point2) -> Seq<Point2>
    decreases s.len(),
{
    if s.len() == 0 || precedes(s.last(), p) {
        s.push(p)
    } else {
        inserted(s.drop_last(), p).push(s.last())
    }
}

/// The points of `s` in lexicographic order, with points that precede each
/// other in the order in which `s` has them.
pub open spec fn stably_sorted(s: Seq<Point2>) -> Seq<Point2>
    decreases s.len(),
{
    if s.len() == 0 {
        s
    } else {
        inserted(stably_sorted(s.drop_last()), s.last())
    }
}

/// The points of `s` without those that are nearly equal to the last point
/// kept before them.
pub open spec fn deduplicated(s: Seq<Point2>) -> Seq<Point2>
    decreases s.len(),
{
    if s.len() == 0 {
        s
    } else {
        let kept = deduplicated(s.drop_last());
        if kept.len() > 0 && near_points(kept.last(), s.last()) {
            kept
        } else {
            kept.push(s.last())
        }
    }
}

/// The points of `s`, sorted and without near-duplicates.
pub open spec fn sanitized(s: Seq<Point2>) -> Seq<Point2> {
    deduplicated(stably_sorted(s))
}

/// The lexicographic order is total and transitive.
pub proof fn lemma_precedes_is_total(a: Point2, b: Point2, c: Point2)
    ensures
        precedes(a, b) || precedes(b, a),
        precedes(a, a),
        precedes(a, b) && precedes(b, c) ==> precedes(a, c),
{
}

/// Putting a point into an ordered sequence leaves it ordered and adds that
/// point, and nothing else.
pub proof fn lemma_inserted(s: Seq<Point2>, p: Point2)
    requires
        ordered(s),
    ensures
        ordered(inserted(s, p)),
        inserted(s, p).len() == s.len() + 1,
        inserted(s, p).to_multiset() == s.to_multiset().insert(p),
        forall|i: int|
            0 <= i < inserted(s, p).len() ==> (#[trigger] inserted(s, p)[i]) == p || s.contains(
                inserted(s, p)[i],
            ),
    decreases s.len(),
{
    broadcast use group_to_multiset_ensures;

    let r = inserted(s, p);
    if s.len() == 0 || precedes(s.last(), p) {
        assert forall|i: int, j: int| 0 <= i < j < r.len() implies precedes(
            #[trigger] r[i],
            #[trigger] r[j],
        ) by {
            if j == s.len() && i < s.len() - 1 {
                assert(precedes(s[i], s[s.len() - 1]));
            }
        }
        assert forall|i: int| 0 <= i < r.len() implies (#[trigger] r[i]) == p || s.contains(
            r[i],
        ) by {
            if i < s.len() {
                assert(s[i] == r[i]);
            }
        }
    } else {
        let front = s.drop_last();
        let t = inserted(front, p);
        assert forall|i: int, j: int| 0 <= i < j < front.len() implies precedes(
            #[trigger] front[i],
            #[trigger] front[j],
        ) by {
            assert(front[i] == s[i] && front[j] == s[j]);
        }
        lemma_inserted(front, p);
        assert(s =~= front.push(s.last()));
        assert forall|i: int, j: int| 0 <= i < j < r.len() implies precedes(
            #[trigger] r[i],
            #[trigger] r[j],
        ) by {
            if j == t.len() {
                if t[i] != p {
                    assert(front.contains(t[i]));
                    let k = choose|k: int| 0 <= k < front.len() && front[k] == t[i];
                    assert(precedes(s[k], s[s.len() - 1]));
                }
            } else {
                assert(precedes(t[i], t[j]));
            }
        }
        assert forall|i: int| 0 <= i < r.len() implies (#[trigger] r[i]) == p || s.contains(
            r[i],
        ) by {
            if i < t.len() {
                if t[i] != p {
                    let k = choose|k: int| 0 <= k < front.len() && front[k] == t[i];
                    assert(s[k] == r[i]);
                }
            } else {
                assert(s[s.len() - 1] == r[i]);
            }
        }
        assert(s.to_multiset() =~= front.to_multiset().insert(s.last()));
        assert(r.to_multiset() =~= s.to_multiset().insert(p));
    }
}

/// The stable sort of a sequence is ordered and holds the same points.
pub proof fn lemma_stably_sorted(s: Seq<Point2>)
    ensures
        ordered(stably_sorted(s)),
        stably_sorted(s).len() == s.len(),
        stably_sorted(s).to_multiset() == s.to_multiset(),
    decreases s.len(),
{
    broadcast use group_to_multiset_ensures;

    if s.len() > 0 {
        lemma_stably_sorted(s.drop_last());
        lemma_inserted(stably_sorted(s.drop_last()), s.last());
        assert(s =~= s.drop_last().push(s.last()));
    }
}

/// The stable sort leaves an ordered sequence as it is.
pub proof fn lemma_ordered_is_fixed(s: Seq<Point2>)
    requires
        ordered(s),
    ensures
        stably_sorted(s) == s,
    decreases s.len(),
{
    if s.len() > 0 {
        let front = s.drop_last();
        assert forall|i: int, j: int| 0 <= i < j < front.len() implies precedes(
            #[trigger] front[i],
            #[trigger] front[j],
        ) by {
            assert(front[i] == s[i] && front[j] == s[j]);
        }
        lemma_ordered_is_fixed(front);
        if front.len() > 0 {
            assert(precedes(s[front.len() - 1], s[s.len() - 1]));
        }
        assert(s =~= front.push(s.last()));
    }
}

/// Dropping near-duplicates keeps points of the sequence, keeps their order,
/// and leaves no point nearly equal to the one before it.
pub proof fn lemma_deduplicated(s: Seq<Point2>)
    ensures
        deduplicated(s).len() <= s.len(),
        s.len() > 0 ==> deduplicated(s).len() > 0,
        forall|i: int|
            0 <= i < deduplicated(s).len() ==> s.contains(#[trigger] deduplicated(s)[i]),
        spaced(deduplicated(s)),
        ordered(s) ==> ordered(deduplicated(s)),
    decreases s.len(),
{
    if s.len() > 0 {
        let front = s.drop_last();
        let kept = deduplicated(front);
        let r = deduplicated(s);
        lemma_deduplicated(front);
        assert forall|i: int| 0 <= i < r.len() implies s.contains(#[trigger] r[i]) by {
            if i < kept.len() {
                let k = choose|k: int| 0 <= k < front.len() && front[k] == kept[i];
                assert(s[k] == r[i]);
            } else {
                assert(s[s.len() - 1] == r[i]);
            }
        }
        assert forall|i: int| 0 < i < r.len() implies !near_points(r[i - 1], #[trigger] r[i]) by {
            if i < kept.len() {
                assert(!near_points(kept[i - 1], kept[i]));
            }
        }
        if ordered(s) {
            assert forall|i: int, j: int| 0 <= i < j < front.len() implies precedes(
                #[trigger] front[i],
                #[trigger] front[j],
            ) by {
                assert(front[i] == s[i] && front[j] == s[j]);
            }
            assert forall|i: int, j: int| 0 <= i < j < r.len() implies precedes(
                #[trigger] r[i],
                #[trigger] r[j],
            ) by {
                if j < kept.len() {
                    assert(precedes(kept[i], kept[j]));
                } else {
                    let k = choose|k: int| 0 <= k < front.len() && front[k] == kept[i];
                    assert(precedes(s[k], s[s.len() - 1]));
                }
            }
        }
    }
}

/// Dropping near-duplicates leaves a sequence as it is when no point of it
/// is nearly equal to the one before it.
pub proof fn lemma_spaced_is_fixed(s: Seq<Point2>)
    requires
        spaced(s),
    ensures
        deduplicated(s) == s,
    decreases s.len(),
{
    if s.len() > 0 {
        let front = s.drop_last();
        assert forall|i: int| 0 < i < front.len() implies !near_points(
            front[i - 1],
            #[trigger] front[i],
        ) by {
            assert(!near_points(s[i - 1], s[i]));
        }
        lemma_spaced_is_fixed(front);
        if front.len() > 0 {
            assert(!near_points(s[s.len() - 2], s[s.len() - 1]));
        }
        assert(s =~= front.push(s.last()));
    }
}

/// Sanitizing twice is sanitizing once.
pub proof fn lemma_sanitize_is_idempotent(s: Seq<Point2>)
    ensures
        sanitized(sanitized(s)) == sanitized(s),
        ordered(sanitized(s)),
        spaced(sanitized(s)),
{
    lemma_stably_sorted(s);
    lemma_deduplicated(stably_sorted(s));
    lemma_ordered_is_fixed(sanitized(s));
    lemma_spaced_is_fixed(sanitized(s));
}

/// Finite points that precede each other are nearly equal: they are at the
/// same place.
pub proof fn lemma_tied_points_are_near(a: Point2, b: Point2)
    requires
        is_finite_point(a),
        is_finite_point(b),
        precedes(a, b),
        precedes(b, a),
    ensures
        near_points(a, b),
        same_point(a, b),
{
    lemma_ordinal_orders_values(a.x, b.x);
    lemma_ordinal_orders_values(a.y, b.y);
}

/// The points of a sanitized list are apart: of two of them the earlier one
/// strictly precedes the later one, so that no two of them coincide.
pub proof fn lemma_sanitized_points_are_apart(s: Seq<Point2>, i: int, j: int)
    requires
        all_finite(s),
        ordered(s),
        spaced(s),
        0 <= i < j < s.len(),
    ensures
        !precedes(s[j], s[i]),
        !coincide(s[i], s[j]),
        !coincide(s[j], s[i]),
{
    assert(is_finite_point(s[i]) && is_finite_point(s[i + 1]) && is_finite_point(s[j]));
    assert(!near_points(s[i], s[i + 1]));
    assert(precedes(s[i], s[i + 1]));
    if i + 1 < j {
        assert(precedes(s[i + 1], s[j]));
    }
    if precedes(s[j], s[i]) {
        lemma_tied_points_are_near(s[i], s[i + 1]);
    }
    if same_point(s[i], s[j]) || same_point(s[j], s[i]) {
        lemma_ordinal_orders_values(s[i].x, s[j].x);
        lemma_ordinal_orders_values(s[i].y, s[j].y);
    }
}

/// No coordinate of the point is the negative zero.
pub open spec fn has_plain_zeros(p: Point2) -> bool {
    p.x != SIGN_BIT && p.y != SIGN_BIT
}

/// No coordinate of a point of the sequence is the negative zero, so that
/// two points of it that precede each other are one point.
pub open spec fn all_plain_zeros(s: Seq<Point2>) -> bool {
    forall|i: int| 0 <= i < s.len() ==> has_plain_zeros(#[trigger] s[i])
}

/// A total order of all points that is the lexicographic order on the
/// points without a negative zero.
pub open spec fn strictly_precedes_or_is(a: Point2, b: Point2) -> bool {
    if has_plain_zeros(a) && has_plain_zeros(b) {
        precedes(a, b)
    } else if has_plain_zeros(a) != has_plain_zeros(b) {
        has_plain_zeros(a)
    } else {
        a.x < b.x || (a.x == b.x && a.y <= b.y)
    }
}

/// Sanitizing does not depend on the order in which the points come: two
/// lists that hold the same points, each as often as the other, are
/// sanitized to the same list. The negative zero is left out, because a
/// point with it and the point with the positive zero in its place precede
/// each other, and which of the two is kept depends on which comes first.
pub proof fn lemma_sanitize_ignores_order(s: Seq<Point2>, t: Seq<Point2>)
    requires
        s.to_multiset() == t.to_multiset(),
        all_plain_zeros(s),
    ensures
        stably_sorted(s) == stably_sorted(t),
        sanitized(s) == sanitized(t),
{
    broadcast use group_to_multiset_ensures;

    let leq = |a: Point2, b: Point2| strictly_precedes_or_is(a, b);
    let u = stably_sorted(s);
    let v = stably_sorted(t);
    lemma_stably_sorted(s);
    lemma_stably_sorted(t);
    assert forall|i: int| 0 <= i < u.len() implies has_plain_zeros(#[trigger] u[i]) by {
        assert(u.to_multiset().count(u[i]) > 0);
        assert(s.contains(u[i]));
    }
    assert forall|i: int| 0 <= i < v.len() implies has_plain_zeros(#[trigger] v[i]) by {
        assert(v.to_multiset().count(v[i]) > 0);
        assert(s.contains(v[i]));
    }
    assert(sorted_by(u, leq)) by {
        assert forall|i: int, j: int| 0 <= i < j < u.len() implies #[trigger] leq(u[i], u[j]) by {
            assert(precedes(u[i], u[j]));
        }
    }
    assert(sorted_by(v, leq)) by {
        assert forall|i: int, j: int| 0 <= i < j < v.len() implies #[trigger] leq(v[i], v[j]) by {
            assert(precedes(v[i], v[j]));
        }
    }
    assert(total_ordering(leq)) by {
        assert forall|a: Point2| #[trigger] leq(a, a) by {}
        assert forall|a: Point2, b: Point2| #[trigger] leq(a, b) && #[trigger] leq(b, a) implies a
            == b by {}
        assert forall|a: Point2, b: Point2, c: Point2| #[trigger]
            leq(a, b) && #[trigger] leq(b, c) implies leq(a, c) by {}
        assert forall|a: Point2, b: Point2| #[trigger] leq(a, b) || #[trigger] leq(b, a) by {}
    }
    lemma_sorted_unique(u, v, leq);
}

/// Whether two points are nearly equal.
pub fn nearly_equals(a: &Point2, b: &Point2) -> (r: bool)
    ensures
        r == near_points(*a, *b),
{
    near_numbers(a.x, b.x) && near_numbers(a.y, b.y)
}

/// Sorts the points in lexicographic order, by `x` and then by `y`. Points
/// that precede each other stay in the order in which they came.
pub fn sort_points(points: &mut Vec<Point2>)
    ensures
        final(points)@ == stably_sorted(old(points)@),
        ordered(final(points)@),
        final(points)@.to_multiset() == old(points)@.to_multiset(),
{
    proof {
        lemma_stably_sorted(points@);
    }
    stable_sort(points);
}

/// Walks the points and drops each one that is nearly equal to the last one
/// kept.
pub fn remove_near_equal_points(points: &mut Vec<Point2>)
    ensures
        final(points)@ == deduplicated(old(points)@),
{
    let mut kept: Vec<Point2> = Vec::new();
    let mut i: usize = 0;
    while i < points.len()
        invariant
            i <= points.len(),
            *points == *old(points),
            kept@ == deduplicated(points@.take(i as int)),
        decreases points.len() - i,
    {
        let p = points[i];
        let keep = if kept.len() == 0 {
            true
        } else {
            !nearly_equals(&kept[kept.len() - 1], &p)
        };
        proof {
            assert(points@.take(i + 1).drop_last() =~= points@.take(i as int));
        }
        if keep {
            kept.push(p);
        }
        i += 1;
    }
    proof {
        assert(points@.take(points@.len() as int) =~= points@);
    }
    *points = kept;
}

/// Whether every point has finite coordinates.
pub fn all_points_finite(points: &Vec<Point2>) -> (r: bool)
    ensures
        r == all_finite(points@),
{
    let mut i: usize = 0;
    while i < points.len()
        invariant
            i <= points.len(),
            all_finite(points@.take(i as int)),
        decreases points.len() - i,
    {
        if !is_finite_number(points[i].x) || !is_finite_number(points[i].y) {
            return false;
        }
        proof {
            assert forall|j: int| 0 <= j < i + 1 implies is_finite_point(
                #[trigger] points@.take(i + 1)[j],
            ) by {
                if j < i {
                    assert(points@.take(i as int)[j] == points@.take(i + 1)[j]);
                }
            }
        }
        i += 1;
    }
    proof {
        assert(points@.take(points@.len() as int) =~= points@);
    }
    true
}

/// Sorts the points and drops near-duplicates, in place. Points with a
/// coordinate that is not finite are rejected, and the list is left as it
/// was.
pub fn sanitize_points_vec(points: &mut Vec<Point2>) -> (r: Result<(), TriangulationError>)
    ensures
        r is Ok <==> all_finite(old(points)@),
        r is Ok ==> final(points)@ == sanitized(old(points)@),
        r is Err ==> r == Err::<(), TriangulationError>(TriangulationError::InvalidCoordinate)
            && final(points)@ == old(points)@,
{
    if !all_points_finite(points) {
        return Err(TriangulationError::InvalidCoordinate);
    }
    sort_points(points);
    remove_near_equal_points(points);
    Ok(())
}

} // verus!
