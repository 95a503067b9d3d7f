//! The comparison of points, and the sort that is run with it.

use crate::binary64::less_than;
use crate::point::precedes;
use crate::point::stably_sorted;
use crate::point::Point2;
use std::cmp::Ordering;
use vstd::prelude::*;

verus! {

/// Compares two points in the lexicographic order: by `x`, then by `y`.
pub fn compare_points(a: &Point2, b: &Point2) -> (o: Ordering)
    ensures
        o == Ordering::Less <==> !precedes(*b, *a),
        o == Ordering::Greater <==> !precedes(*a, *b),
        o == Ordering::Equal <==> precedes(*a, *b) && precedes(*b, *a),
{
    if less_than(a.x, b.x) {
        Ordering::Less
    } else if less_than(b.x, a.x) {
        Ordering::Greater
    } else if less_than(a.y, b.y) {
        Ordering::Less
    } else if less_than(b.y, a.y) {
        Ordering::Greater
    } else {
        Ordering::Equal
    }
}

/// `slice::sort_by`, run with [`compare_points`]. The standard library
/// documents this sort to be stable: it leaves the slice in ascending order,
/// with elements that compare equal in their initial order. That arrangement
/// is [`stably_sorted`]. The comparison is a total order, proved in
/// [`crate::point::lemma_precedes_is_total`], so the sort does not panic.
#[verifier::external_body]
pub(crate) fn stable_sort(points: &mut Vec<Point2>)
    ensures
        final(points)@ == stably_sorted(old(points)@),
{
    points.sort_by(|a, b| compare_points(a, b));
}

} // verus!
