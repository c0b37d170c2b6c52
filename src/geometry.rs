//! Geometric value types: vertices, cross-section polylines, axes and extents.
use vstd::prelude::*;

verus! {

/// Fixed-point scale: a coordinate value `v` stands for `v / COORD_SCALE` source units.
pub const COORD_SCALE: i64 = 1000;

/// The coordinate that a projection, sort or extent operation applies to.
#[derive(Debug, Clone, Copy, PartialEq, Eq, Structural)]
pub enum Axis {
    X,
    Y,
    Z,
}

impl Axis {
    /// The axis name as text.
    pub fn name(&self) -> (r: String)
        ensures
            r@ == axis_name(*self),
    {
        match self {
            Axis::X => {
                proof {
                    reveal_strlit("X");
                }
                String::from_str("X")
            },
            Axis::Y => {
                proof {
                    reveal_strlit("Y");
                }
                String::from_str("Y")
            },
            Axis::Z => {
                proof {
                    reveal_strlit("Z");
                }
                String::from_str("Z")
            },
        }
    }
}

/// The one-letter name of an axis.
pub open spec fn axis_name(axis: Axis) -> Seq<char> {
    match axis {
        Axis::X => seq!['X'],
        Axis::Y => seq!['Y'],
        Axis::Z => seq!['Z'],
    }
}

/// One vertex of a cross-section polyline, in fixed-point units.
#[derive(Debug, Clone, Copy, PartialEq, Eq, Structural)]
pub struct CrossCoordinate3d {
    pub x_coord: i64,
    pub y_coord: i64,
    pub z_coord: i64,
    /// 1-based position of the vertex within its polyline.
    pub vertex_id: i32,
}

/// A vertex projected onto the horizontal plane.
#[derive(Debug, Clone, Copy, PartialEq, Eq, Structural)]
pub struct CrossCoordinate2d {
    pub x_coord: i64,
    pub y_coord: i64,
    pub vertex_id: i32,
}

impl CrossCoordinate3d {
    /// The coordinate of this vertex along `axis`.
    pub open spec fn coord(self, axis: Axis) -> i64 {
        match axis {
            Axis::X => self.x_coord,
            Axis::Y => self.y_coord,
            Axis::Z => self.z_coord,
        }
    }

    /// The vertex with its elevation dropped.
    pub open spec fn flat(self) -> CrossCoordinate2d {
        CrossCoordinate2d { x_coord: self.x_coord, y_coord: self.y_coord, vertex_id: self.vertex_id }
    }

    pub fn new(x: i64, y: i64, z: i64, vertex_id: i32) -> (r: CrossCoordinate3d)
        ensures
            r == (CrossCoordinate3d { x_coord: x, y_coord: y, z_coord: z, vertex_id }),
    {
        CrossCoordinate3d { x_coord: x, y_coord: y, z_coord: z, vertex_id }
    }

    /// The coordinate along `axis`.
    pub fn get_coord(&self, axis: Axis) -> (r: i64)
        ensures
            r == self.coord(axis),
    {
        match axis {
            Axis::X => self.x_coord,
            Axis::Y => self.y_coord,
            Axis::Z => self.z_coord,
        }
    }

    /// Whether two vertices stand at the same place, whatever their ids.
    pub fn eq_test(&self, other: &CrossCoordinate3d) -> (r: bool)
        ensures
            r == (self.x_coord == other.x_coord && self.y_coord == other.y_coord
                && self.z_coord == other.z_coord),
    {
        self.x_coord == other.x_coord && self.y_coord == other.y_coord && self.z_coord
            == other.z_coord
    }
}

impl CrossCoordinate2d {
    pub fn new(x_coord: i64, y_coord: i64, vertex_id: i32) -> (r: CrossCoordinate2d)
        ensures
            r == (CrossCoordinate2d { x_coord, y_coord, vertex_id }),
    {
        CrossCoordinate2d { x_coord, y_coord, vertex_id }
    }
}

/// The smallest coordinate along `axis` among `pts` (meaningful when `pts` is non-empty).
pub open spec fn min_on(pts: Seq<CrossCoordinate3d>, axis: Axis) -> i64
    decreases pts.len(),
{
    if pts.len() <= 1 {
        pts[0].coord(axis)
    } else {
        let m = min_on(pts.drop_last(), axis);
        let v = pts.last().coord(axis);
        if v <= m {
            v
        } else {
            m
        }
    }
}

/// The largest coordinate along `axis` among `pts` (meaningful when `pts` is non-empty).
pub open spec fn max_on(pts: Seq<CrossCoordinate3d>, axis: Axis) -> i64
    decreases pts.len(),
{
    if pts.len() <= 1 {
        pts[0].coord(axis)
    } else {
        let m = max_on(pts.drop_last(), axis);
        let v = pts.last().coord(axis);
        if v >= m {
            v
        } else {
            m
        }
    }
}

/// `min_on` is attained by some vertex and bounds every vertex from below.
pub proof fn lemma_min_on(pts: Seq<CrossCoordinate3d>, axis: Axis)
    requires
        pts.len() > 0,
    ensures
        exists|i: int| 0 <= i < pts.len() && pts[i].coord(axis) == min_on(pts, axis),
        forall|i: int| 0 <= i < pts.len() ==> min_on(pts, axis) <= #[trigger] pts[i].coord(axis),
    decreases pts.len(),
{
    if pts.len() > 1 {
        let init = pts.drop_last();
        lemma_min_on(init, axis);
        let k = choose|i: int| 0 <= i < init.len() && init[i].coord(axis) == min_on(init, axis);
        if pts.last().coord(axis) <= min_on(init, axis) {
            assert(pts[pts.len() - 1].coord(axis) == min_on(pts, axis));
        } else {
            assert(pts[k].coord(axis) == min_on(pts, axis));
        }
        assert forall|i: int| 0 <= i < pts.len() implies min_on(pts, axis) <= #[trigger] pts[i].coord(
            axis,
        ) by {
            if i < pts.len() - 1 {
                assert(pts[i] == init[i]);
            }
        }
    } else {
        assert(pts[0].coord(axis) == min_on(pts, axis));
    }
}

/// `max_on` is attained by some vertex and bounds every vertex from above.
pub proof fn lemma_max_on(pts: Seq<CrossCoordinate3d>, axis: Axis)
    requires
        pts.len() > 0,
    ensures
        exists|i: int| 0 <= i < pts.len() && pts[i].coord(axis) == max_on(pts, axis),
        forall|i: int| 0 <= i < pts.len() ==> max_on(pts, axis) >= #[trigger] pts[i].coord(axis),
    decreases pts.len(),
{
    if pts.len() > 1 {
        let init = pts.drop_last();
        lemma_max_on(init, axis);
        let k = choose|i: int| 0 <= i < init.len() && init[i].coord(axis) == max_on(init, axis);
        if pts.last().coord(axis) >= max_on(init, axis) {
            assert(pts[pts.len() - 1].coord(axis) == max_on(pts, axis));
        } else {
            assert(pts[k].coord(axis) == max_on(pts, axis));
        }
        assert forall|i: int| 0 <= i < pts.len() implies max_on(pts, axis) >= #[trigger] pts[i].coord(
            axis,
        ) by {
            if i < pts.len() - 1 {
                assert(pts[i] == init[i]);
            }
        }
    } else {
        assert(pts[0].coord(axis) == max_on(pts, axis));
    }
}

/// One cross-section polyline: a group number and its vertices in file order.
#[derive(Debug)]
pub struct Cross {
    pub group_no: i32,
    pub coordinate: Vec<CrossCoordinate3d>,
}

impl View for Cross {
    type V = (i32, Seq<CrossCoordinate3d>);

    open spec fn view(&self) -> (i32, Seq<CrossCoordinate3d>) {
        (self.group_no, self.coordinate@)
    }
}

/// Structural equality: same group number and the same vertices in the same order.
impl PartialEq for Cross {
    fn eq(&self, other: &Cross) -> (r: bool) {
        cross_eq(self, other)
    }
}

impl vstd::std_specs::cmp::PartialEqSpecImpl for Cross {
    open spec fn obeys_eq_spec() -> bool {
        true
    }

    open spec fn eq_spec(&self, other: &Cross) -> bool {
        self@ == other@
    }
}

/// Whether two crosses are structurally equal.
pub fn cross_eq(a: &Cross, b: &Cross) -> (r: bool)
    ensures
        r == (a@ == b@),
{
    if a.group_no != b.group_no || a.coordinate.len() != b.coordinate.len() {
        return false;
    }
    let n = a.coordinate.len();
    let mut i: usize = 0;
    while i < n
        invariant
            n == a.coordinate@.len(),
            n == b.coordinate@.len(),
            i <= n,
            forall|j: int| 0 <= j < i ==> a.coordinate@[j] == b.coordinate@[j],
        decreases n - i,
    {
        if a.coordinate[i] != b.coordinate[i] {
            return false;
        }
        i = i + 1;
    }
    assert(a.coordinate@ =~= b.coordinate@);
    true
}

/// Smaller of two values.
fn get_min_one(a: i64, b: i64) -> (r: i64)
    ensures
        r == if a <= b { a } else { b },
{
    if a <= b {
        a
    } else {
        b
    }
}

/// Larger of two values.
fn get_max_one(a: i64, b: i64) -> (r: i64)
    ensures
        r == if a >= b { a } else { b },
{
    if a >= b {
        a
    } else {
        b
    }
}

/// The id of the last vertex of `pts` whose coordinate along `axis` is `value`.
pub open spec fn last_vertex_with(pts: Seq<CrossCoordinate3d>, value: i64, axis: Axis) -> Option<i32>
    decreases pts.len(),
{
    if pts.len() == 0 {
        None
    } else if pts.last().coord(axis) == value {
        Some(pts.last().vertex_id)
    } else {
        last_vertex_with(pts.drop_last(), value, axis)
    }
}

/// The axis along which a polyline spreads the most on the horizontal plane (X on a tie).
pub open spec fn orient_of(pts: Seq<CrossCoordinate3d>) -> Axis {
    if max_on(pts, Axis::X) - min_on(pts, Axis::X) >= max_on(pts, Axis::Y) - min_on(pts, Axis::Y) {
        Axis::X
    } else {
        Axis::Y
    }
}

/// The bounding box of one polyline.
pub open spec fn extent_of(pts: Seq<CrossCoordinate3d>) -> Extent {
    Extent {
        min_x: min_on(pts, Axis::X),
        min_y: min_on(pts, Axis::Y),
        min_z: min_on(pts, Axis::Z),
        max_x: max_on(pts, Axis::X),
        max_y: max_on(pts, Axis::Y),
        max_z: max_on(pts, Axis::Z),
    }
}

/// The smallest box holding two boxes.
pub open spec fn union_extent(a: Extent, b: Extent) -> Extent {
    Extent {
        min_x: if a.min_x <= b.min_x { a.min_x } else { b.min_x },
        min_y: if a.min_y <= b.min_y { a.min_y } else { b.min_y },
        min_z: if a.min_z <= b.min_z { a.min_z } else { b.min_z },
        max_x: if a.max_x >= b.max_x { a.max_x } else { b.max_x },
        max_y: if a.max_y >= b.max_y { a.max_y } else { b.max_y },
        max_z: if a.max_z >= b.max_z { a.max_z } else { b.max_z },
    }
}

/// Whether a vertex lies inside a box, bounds included.
pub open spec fn inside(e: Extent, p: CrossCoordinate3d) -> bool {
    &&& e.min_x <= p.x_coord <= e.max_x
    &&& e.min_y <= p.y_coord <= e.max_y
    &&& e.min_z <= p.z_coord <= e.max_z
}

/// An axis-aligned bounding box, in fixed-point units.
#[derive(Debug, Clone, Copy, PartialEq, Eq, Structural)]
pub struct Extent {
    pub min_x: i64,
    pub min_y: i64,
    pub min_z: i64,
    pub max_x: i64,
    pub max_y: i64,
    pub max_z: i64,
}

impl Extent {
    pub fn new(min_x: i64, min_y: i64, min_z: i64, max_x: i64, max_y: i64, max_z: i64) -> (r:
        Extent)
        ensures
            r == (Extent { min_x, min_y, min_z, max_x, max_y, max_z }),
    {
        Extent { min_x, min_y, min_z, max_x, max_y, max_z }
    }

    /// The smallest box holding both boxes.
    pub fn union(&self, other: &Extent) -> (r: Extent)
        ensures
            r == union_extent(*self, *other),
    {
        Extent::new(
            get_min_one(self.min_x, other.min_x),
            get_min_one(self.min_y, other.min_y),
            get_min_one(self.min_z, other.min_z),
            get_max_one(self.max_x, other.max_x),
            get_max_one(self.max_y, other.max_y),
            get_max_one(self.max_z, other.max_z),
        )
    }
}

impl Cross {
    pub fn new(group_no: i32, coordinate: Vec<CrossCoordinate3d>) -> (r: Cross)
        ensures
            r@ == (group_no, coordinate@),
    {
        Cross { group_no, coordinate }
    }

    /// The smallest coordinate along `axis` over all vertices.
    pub fn get_minimum_by_axis(&self, axis: Axis) -> (r: i64)
        requires
            self.coordinate@.len() > 0,
        ensures
            r == min_on(self.coordinate@, axis),
    {
        let pts = &self.coordinate;
        let mut m = pts[0].get_coord(axis);
        let mut i: usize = 1;
        assert(pts@.take(1).len() == 1);
        while i < pts.len()
            invariant
                1 <= i <= pts@.len(),
                m == min_on(pts@.take(i as int), axis),
            decreases pts@.len() - i,
        {
            let v = pts[i].get_coord(axis);
            assert(pts@.take(i + 1).drop_last() =~= pts@.take(i as int));
            if v <= m {
                m = v;
            }
            i = i + 1;
        }
        assert(pts@.take(i as int) =~= pts@);
        m
    }

    /// The largest coordinate along `axis` over all vertices.
    pub fn get_maximum_by_axis(&self, axis: Axis) -> (r: i64)
        requires
            self.coordinate@.len() > 0,
        ensures
            r == max_on(self.coordinate@, axis),
    {
        let pts = &self.coordinate;
        let mut m = pts[0].get_coord(axis);
        let mut i: usize = 1;
        assert(pts@.take(1).len() == 1);
        while i < pts.len()
            invariant
                1 <= i <= pts@.len(),
                m == max_on(pts@.take(i as int), axis),
            decreases pts@.len() - i,
        {
            let v = pts[i].get_coord(axis);
            assert(pts@.take(i + 1).drop_last() =~= pts@.take(i as int));
            if v >= m {
                m = v;
            }
            i = i + 1;
        }
        assert(pts@.take(i as int) =~= pts@);
        m
    }

    pub fn give_minimum_x_value(&self) -> (r: i64)
        requires
            self.coordinate@.len() > 0,
        ensures
            r == min_on(self.coordinate@, Axis::X),
    {
        self.get_minimum_by_axis(Axis::X)
    }

    pub fn give_minimum_y_value(&self) -> (r: i64)
        requires
            self.coordinate@.len() > 0,
        ensures
            r == min_on(self.coordinate@, Axis::Y),
    {
        self.get_minimum_by_axis(Axis::Y)
    }

    pub fn give_minimum_z_value(&self) -> (r: i64)
        requires
            self.coordinate@.len() > 0,
        ensures
            r == min_on(self.coordinate@, Axis::Z),
    {
        self.get_minimum_by_axis(Axis::Z)
    }

    pub fn give_maximum_x_value(&self) -> (r: i64)
        requires
            self.coordinate@.len() > 0,
        ensures
            r == max_on(self.coordinate@, Axis::X),
    {
        self.get_maximum_by_axis(Axis::X)
    }

    pub fn give_maximum_y_value(&self) -> (r: i64)
        requires
            self.coordinate@.len() > 0,
        ensures
            r == max_on(self.coordinate@, Axis::Y),
    {
        self.get_maximum_by_axis(Axis::Y)
    }

    pub fn give_maximum_z_value(&self) -> (r: i64)
        requires
            self.coordinate@.len() > 0,
        ensures
            r == max_on(self.coordinate@, Axis::Z),
    {
        self.get_maximum_by_axis(Axis::Z)
    }

    /// The `(min, max)` pair along `axis` over all vertices.
    pub fn per_cross_extrema(&self, axis: Axis) -> (r: (i64, i64))
        requires
            self.coordinate@.len() > 0,
        ensures
            r == (min_on(self.coordinate@, axis), max_on(self.coordinate@, axis)),
    {
        (self.get_minimum_by_axis(axis), self.get_maximum_by_axis(axis))
    }

    /// The bounding box of this polyline.
    pub fn extent(&self) -> (r: Extent)
        requires
            self.coordinate@.len() > 0,
        ensures
            r == extent_of(self.coordinate@),
    {
        Extent::new(
            self.give_minimum_x_value(),
            self.give_minimum_y_value(),
            self.give_minimum_z_value(),
            self.give_maximum_x_value(),
            self.give_maximum_y_value(),
            self.give_maximum_z_value(),
        )
    }

    /// The id of the last vertex whose coordinate along `axis` equals `value`, if any.
    pub fn find_vertex_id_via_value_of_axis(&self, value: i64, axis: Axis) -> (r: Option<i32>)
        ensures
            r == last_vertex_with(self.coordinate@, value, axis),
    {
        let pts = &self.coordinate;
        let mut found: Option<i32> = None;
        let mut i: usize = 0;
        while i < pts.len()
            invariant
                i <= pts@.len(),
                found == last_vertex_with(pts@.take(i as int), value, axis),
            decreases pts@.len() - i,
        {
            assert(pts@.take(i + 1).drop_last() =~= pts@.take(i as int));
            if pts[i].get_coord(axis) == value {
                found = Some(pts[i].vertex_id);
            }
            i = i + 1;
        }
        assert(pts@.take(i as int) =~= pts@);
        found
    }

    /// X when the horizontal spread along X is at least the spread along Y, else Y.
    pub fn find_orient_2d(&self) -> (r: Axis)
        requires
            self.coordinate@.len() > 0,
        ensures
            r == orient_of(self.coordinate@),
    {
        let (min_x, max_x) = self.per_cross_extrema(Axis::X);
        let (min_y, max_y) = self.per_cross_extrema(Axis::Y);
        let delta_x: i128 = max_x as i128 - min_x as i128;
        let delta_y: i128 = max_y as i128 - min_y as i128;
        if delta_x >= delta_y {
            Axis::X
        } else {
            Axis::Y
        }
    }

    /// This polyline's minimum along `axis` less the other's.
    pub fn difference_self_minimum_axis_value_from_other_cross(&self, other: &Cross, axis: Axis) -> (r:
        i128)
        requires
            self.coordinate@.len() > 0,
            other.coordinate@.len() > 0,
        ensures
            r == min_on(self.coordinate@, axis) - min_on(other.coordinate@, axis),
    {
        self.get_minimum_by_axis(axis) as i128 - other.get_minimum_by_axis(axis) as i128
    }

    /// The smallest box holding both polylines.
    pub fn find_two_cross_frame(&self, cross_two: &Cross) -> (r: Extent)
        requires
            self.coordinate@.len() > 0,
            cross_two.coordinate@.len() > 0,
        ensures
            r == union_extent(extent_of(self.coordinate@), extent_of(cross_two.coordinate@)),
    {
        let a = self.extent();
        let b = cross_two.extent();
        a.union(&b)
    }

    /// The vertices with elevation dropped, in order, ids kept.
    pub fn clone_coordinates_2d(&self) -> (r: Vec<CrossCoordinate2d>)
        ensures
            r@ == self.coordinate@.map_values(|p: CrossCoordinate3d| p.flat()),
    {
        let pts = &self.coordinate;
        let mut out: Vec<CrossCoordinate2d> = Vec::new();
        let mut i: usize = 0;
        while i < pts.len()
            invariant
                i <= pts@.len(),
                out@ =~= pts@.take(i as int).map_values(|p: CrossCoordinate3d| p.flat()),
            decreases pts@.len() - i,
        {
            let p = pts[i];
            out.push(CrossCoordinate2d::new(p.x_coord, p.y_coord, p.vertex_id));
            i = i + 1;
        }
        assert(pts@.take(i as int) =~= pts@);
        out
    }

    /// The horizontal positions of the vertices, in order.
    pub fn clone_coordinates_2d_with_points(&self) -> (r: Vec<(i64, i64)>)
        ensures
            r@ == self.coordinate@.map_values(|p: CrossCoordinate3d| (p.x_coord, p.y_coord)),
    {
        let pts = &self.coordinate;
        let mut out: Vec<(i64, i64)> = Vec::new();
        let mut i: usize = 0;
        while i < pts.len()
            invariant
                i <= pts@.len(),
                out@ =~= pts@.take(i as int).map_values(|p: CrossCoordinate3d| (p.x_coord, p.y_coord)),
            decreases pts@.len() - i,
        {
            out.push((pts[i].x_coord, pts[i].y_coord));
            i = i + 1;
        }
        assert(pts@.take(i as int) =~= pts@);
        out
    }
}

/// Every vertex of a polyline lies inside its bounding box.
pub proof fn lemma_inside_own_extent(pts: Seq<CrossCoordinate3d>, j: int)
    requires
        0 <= j < pts.len(),
    ensures
        inside(extent_of(pts), pts[j]),
{
    lemma_min_on(pts, Axis::X);
    lemma_min_on(pts, Axis::Y);
    lemma_min_on(pts, Axis::Z);
    lemma_max_on(pts, Axis::X);
    lemma_max_on(pts, Axis::Y);
    lemma_max_on(pts, Axis::Z);
    assert(pts[j].coord(Axis::X) == pts[j].x_coord);
    assert(pts[j].coord(Axis::Y) == pts[j].y_coord);
    assert(pts[j].coord(Axis::Z) == pts[j].z_coord);
}

/// The frame of two polylines does not depend on their order.
pub proof fn lemma_pair_frame_symmetric(a: Seq<CrossCoordinate3d>, b: Seq<CrossCoordinate3d>)
    ensures
        union_extent(extent_of(a), extent_of(b)) == union_extent(extent_of(b), extent_of(a)),
{
}

} // verus!
