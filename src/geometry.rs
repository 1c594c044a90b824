//! Outline geometry on fixed-point coordinates.
//!
//! A coordinate is an `i64` count of ten-millionths of a unit (of a degree in the
//! canonical longitude/latitude frame, of a metre in a projected one). Two vertices
//! are shared when their fixed-point coordinates are equal, which is a tolerance of
//! one ten-millionth. Hulls and intersection tests are computed by geo.
use geo::{ConvexHull, Coord, Intersects, LineString, Polygon};
use vstd::prelude::*;

verus! {

/// A point `(x, y)` in fixed-point coordinates.
pub type GridPoint = (i64, i64);

/// Fixed-point units per coordinate unit.
pub const UNITS_PER_COORDINATE: i64 = 10_000_000;

/// The largest magnitude a coordinate may have for hull and intersection tests:
/// geo's integer kernel multiplies coordinate differences, which must fit in `i128`.
pub const COORD_LIMIT: i64 = 1_152_921_504_606_846_976;

pub open spec fn point_in_range(p: GridPoint) -> bool {
    -COORD_LIMIT <= p.0 <= COORD_LIMIT && -COORD_LIMIT <= p.1 <= COORD_LIMIT
}

pub open spec fn ring_in_range(r: Seq<GridPoint>) -> bool {
    forall|i: int| 0 <= i < r.len() ==> point_in_range(#[trigger] r[i])
}

/// The closed exterior ring of geo's convex hull of some points.
pub uninterp spec fn convex_hull_of(points: Seq<GridPoint>) -> Seq<GridPoint>;

/// Whether geo finds that the polygons with these exterior rings intersect.
pub uninterp spec fn rings_intersect(a: Seq<GridPoint>, b: Seq<GridPoint>) -> bool;

/// Relies on geo's `ConvexHull` (quick hull) on `i128` coordinates: the hull's
/// exterior ring, closed, made of input points only; fewer than three points give
/// fewer than four ring points.
#[verifier::external_body]
fn hull_ring(points: &Vec<GridPoint>) -> (r: Vec<GridPoint>)
    requires
        ring_in_range(points@),
    ensures
        r@ == convex_hull_of(points@),
        forall|i: int| 0 <= i < r@.len() ==> points@.contains(#[trigger] r@[i]),
        r@.len() > 0 ==> r@[0] == r@.last(),
        points@.len() < 3 ==> r@.len() < 4,
{
    let line: LineString<i128> = points.iter().map(|p| Coord { x: p.0 as i128, y: p.1 as i128 }).collect();
    line.convex_hull().exterior().coords().map(|c| (c.x as i64, c.y as i64)).collect()
}

/// Relies on geo's `Intersects` between two polygons without holes given by their
/// exterior rings, on `i128` coordinates.
#[verifier::external_body]
pub(crate) fn polygons_intersect(a: &Vec<GridPoint>, b: &Vec<GridPoint>) -> (r: bool)
    requires
        ring_in_range(a@),
        ring_in_range(b@),
    ensures
        r == rings_intersect(a@, b@),
{
    let ring_a: LineString<i128> = a.iter().map(|p| Coord { x: p.0 as i128, y: p.1 as i128 }).collect();
    let ring_b: LineString<i128> = b.iter().map(|p| Coord { x: p.0 as i128, y: p.1 as i128 }).collect();
    Polygon::new(ring_a, vec![]).intersects(&Polygon::new(ring_b, vec![]))
}

/// The convex hull of `points` as a closed ring of input points; a ring of fewer
/// than four points when the points are fewer than three or collinear.
pub fn convex_hull(points: &Vec<GridPoint>) -> (r: Vec<GridPoint>)
    requires
        ring_in_range(points@),
    ensures
        r@ == convex_hull_of(points@),
        forall|i: int| 0 <= i < r@.len() ==> points@.contains(#[trigger] r@[i]),
        r@.len() > 0 ==> r@[0] == r@.last(),
        points@.len() < 3 ==> r@.len() < 4,
        ring_in_range(r@),
{
    let r = hull_ring(points);
    assert forall|i: int| 0 <= i < r@.len() implies point_in_range(#[trigger] r@[i]) by {
        let j = choose|j: int| 0 <= j < points@.len() && points@[j] == r@[i];
        assert(point_in_range(points@[j]));
    }
    r
}

/// The closed ring around a bounding box: lower-left, lower-right, upper-right,
/// upper-left, then lower-left again.
pub open spec fn box_ring(min: GridPoint, max: GridPoint) -> Seq<GridPoint> {
    seq![(min.0, min.1), (max.0, min.1), (max.0, max.1), (min.0, max.1), (min.0, min.1)]
}

/// The closed ring around the bounding box with corners `min` and `max`.
pub fn bounds_ring(min: GridPoint, max: GridPoint) -> (r: Vec<GridPoint>)
    ensures
        r@ == box_ring(min, max),
{
    let r = vec![(min.0, min.1), (max.0, min.1), (max.0, max.1), (min.0, max.1), (min.0, min.1)];
    assert(r@ =~= box_ring(min, max));
    r
}

} // verus!
