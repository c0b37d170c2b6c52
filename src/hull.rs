//! Convex hull of a polyline's horizontal projection, computed by `geo`.
use vstd::prelude::*;
use geo::ConvexHull;
use crate::geometry::{Cross, CrossCoordinate3d};

verus! {

/// Largest coordinate magnitude handed to the hull computation. geo's integer kernel
/// multiplies coordinate differences; within this bound, widened to `i128`, no product
/// or sum of two products overflows.
pub const HULL_COORD_LIMIT: i64 = 2305843009213693952;

/// Why a hull was not computed.
#[derive(Debug, Clone, Copy, PartialEq, Eq, Structural)]
pub enum HullError {
    /// The polyline has fewer than three distinct horizontal positions.
    TooFewDistinctPoints,
    /// A coordinate lies beyond `HULL_COORD_LIMIT` in magnitude.
    CoordinateOutOfRange,
}

/// The closed, counter-clockwise hull ring that geo computes for these points.
pub uninterp spec fn convex_hull_of(pts: Seq<(i64, i64)>) -> Seq<(i64, i64)>;

/// Every coordinate is within `HULL_COORD_LIMIT` in magnitude.
pub open spec fn within_hull_limit(pts: Seq<(i64, i64)>) -> bool {
    forall|i: int|
        0 <= i < pts.len() ==> -HULL_COORD_LIMIT <= (#[trigger] pts[i]).0 <= HULL_COORD_LIMIT
            && -HULL_COORD_LIMIT <= pts[i].1 <= HULL_COORD_LIMIT
}

/// Three pairwise different positions occur among `pts`.
pub open spec fn has_three_distinct(pts: Seq<(i64, i64)>) -> bool {
    exists|i: int, j: int, k: int|
        0 <= i < pts.len() && 0 <= j < pts.len() && 0 <= k < pts.len() && #[trigger] pts[i]
            != #[trigger] pts[j] && pts[i] != #[trigger] pts[k] && pts[j] != pts[k]
}

/// The horizontal positions of a polyline's vertices.
pub open spec fn flat_points(pts: Seq<CrossCoordinate3d>) -> Seq<(i64, i64)> {
    pts.map_values(|p: CrossCoordinate3d| (p.x_coord, p.y_coord))
}

/// Relies on geo's `ConvexHull` for a `Polygon` (QuickHull with exact integer
/// orientation tests): the hull ring depends on the points alone, and each of its
/// points is one of them.
#[verifier::external_body]
fn hull_ring(pts: &Vec<(i64, i64)>) -> (r: Vec<(i64, i64)>)
    requires
        pts@.len() > 0,
        within_hull_limit(pts@),
    ensures
        r@ == convex_hull_of(pts@),
        forall|i: int| 0 <= i < r@.len() ==> pts@.contains(#[trigger] r@[i]),
{
    let ring: Vec<geo::Coord<i128>> = pts.iter().map(|p| geo::Coord { x: p.0 as i128, y: p.1 as i128 }).collect();
    let hull = geo::Polygon::new(geo::LineString::new(ring), vec![]).convex_hull();
    hull.exterior().coords().map(|c| (c.x as i64, c.y as i64)).collect()
}

/// Whether two positions coincide.
fn same_point(a: (i64, i64), b: (i64, i64)) -> (r: bool)
    ensures
        r == (a == b),
{
    a.0 == b.0 && a.1 == b.1
}

impl Cross {
    /// The convex hull of the vertices projected onto the horizontal plane, as a closed
    /// counter-clockwise ring whose last point repeats the first.
    pub fn create_polygon_convex_hull(&self) -> (r: Result<Vec<(i64, i64)>, HullError>)
        ensures
            match r {
                Ok(ring) => {
                    &&& has_three_distinct(flat_points(self.coordinate@))
                    &&& within_hull_limit(flat_points(self.coordinate@))
                    &&& ring@ == convex_hull_of(flat_points(self.coordinate@))
                },
                Err(HullError::TooFewDistinctPoints) => !has_three_distinct(flat_points(self.coordinate@)),
                Err(HullError::CoordinateOutOfRange) => {
                    &&& has_three_distinct(flat_points(self.coordinate@))
                    &&& !within_hull_limit(flat_points(self.coordinate@))
                },
            },
    {
        let pts = self.clone_coordinates_2d_with_points();
        let ghost s = pts@;
        assert(s == flat_points(self.coordinate@));
        let n = pts.len();
        if n == 0 {
            return Err(HullError::TooFewDistinctPoints);
        }
        let first = pts[0];
        let mut j: usize = 1;
        while j < n && same_point(pts[j], first)
            invariant
                n == s.len(),
                s == pts@,
                first == s[0],
                1 <= j <= n,
                forall|q: int| 0 <= q < j ==> s[q] == first,
            decreases n - j,
        {
            j = j + 1;
        }
        if j == n {
            assert(!has_three_distinct(s)) by {
                if has_three_distinct(s) {
                    let (a, b, c) = choose|a: int, b: int, c: int|
                        0 <= a < s.len() && 0 <= b < s.len() && 0 <= c < s.len() && #[trigger] s[a]
                            != #[trigger] s[b] && s[a] != #[trigger] s[c] && s[b] != s[c];
                    assert(s[a] == first && s[b] == first);
                }
            }
            return Err(HullError::TooFewDistinctPoints);
        }
        let second = pts[j];
        let mut k: usize = 0;
        while k < n && (same_point(pts[k], first) || same_point(pts[k], second))
            invariant
                n == s.len(),
                s == pts@,
                first == s[0],
                second != first,
                k <= n,
                forall|q: int| 0 <= q < k ==> s[q] == first || s[q] == second,
            decreases n - k,
        {
            k = k + 1;
        }
        if k == n {
            assert(!has_three_distinct(s)) by {
                if has_three_distinct(s) {
                    let (a, b, c) = choose|a: int, b: int, c: int|
                        0 <= a < s.len() && 0 <= b < s.len() && 0 <= c < s.len() && #[trigger] s[a]
                            != #[trigger] s[b] && s[a] != #[trigger] s[c] && s[b] != s[c];
                    assert(s[a] == first || s[a] == second);
                    assert(s[b] == first || s[b] == second);
                    assert(s[c] == first || s[c] == second);
                }
            }
            return Err(HullError::TooFewDistinctPoints);
        }
        assert(has_three_distinct(s)) by {
            assert(s[0] != s[j as int] && s[0] != s[k as int] && s[j as int] != s[k as int]);
        }
        let mut i: usize = 0;
        while i < n
            invariant
                n == s.len(),
                s == pts@,
                i <= n,
                has_three_distinct(s),
                s == flat_points(self.coordinate@),
                within_hull_limit(s.take(i as int)),
            decreases n - i,
        {
            let (x, y) = pts[i];
            if x < -HULL_COORD_LIMIT || x > HULL_COORD_LIMIT || y < -HULL_COORD_LIMIT || y
                > HULL_COORD_LIMIT {
                assert(!within_hull_limit(s)) by {
                    assert(s[i as int] == (x, y));
                }
                return Err(HullError::CoordinateOutOfRange);
            }
            assert(within_hull_limit(s.take(i + 1))) by {
                assert forall|q: int| 0 <= q < i + 1 implies -HULL_COORD_LIMIT <= (
                #[trigger] s.take(i + 1)[q]).0 <= HULL_COORD_LIMIT && -HULL_COORD_LIMIT <= s.take(
                    i + 1,
                )[q].1 <= HULL_COORD_LIMIT by {
                    if q < i {
                        assert(s.take(i + 1)[q] == s.take(i as int)[q]);
                    }
                }
            }
            i = i + 1;
        }
        assert(s.take(n as int) =~= s);
        Ok(hull_ring(&pts))
    }
}

} // verus!
