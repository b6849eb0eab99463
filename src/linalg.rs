//! Points, axis-aligned boxes and affine transforms on fixed-point coordinates.
use vstd::prelude::*;

verus! {

/// Number of ticks in one unit of working space.
pub const UNIT: i64 = 1024;

/// Largest magnitude of a coordinate (or of a transform entry) that the
/// arithmetic of this crate accepts.
pub const COORD_LIMIT: i64 = 268435456;

/// A point or a direction in fixed-point coordinates.
#[derive(Clone, Copy, Debug, PartialEq, Eq, Structural)]
pub struct Vec3 {
    pub x: i64,
    pub y: i64,
    pub z: i64,
}

/// A point of the cloud together with its position in the input sequence.
#[derive(Clone, Copy, Debug, PartialEq, Eq, Structural)]
pub struct Vec3WithIndex {
    pub vec: Vec3,
    pub index: u32,
}

/// An axis-aligned box; `min` and `max` are both inside the box.
#[derive(Clone, Copy, Debug, PartialEq, Eq, Structural)]
pub struct BoundingBox {
    pub min: Vec3,
    pub max: Vec3,
}

/// An affine transform: `p` goes to `translation + p.x * col0 + p.y * col1 + p.z * col2`.
#[derive(Clone, Copy, Debug, PartialEq, Eq, Structural)]
pub struct Mat4 {
    pub col0: Vec3,
    pub col1: Vec3,
    pub col2: Vec3,
    pub translation: Vec3,
}

pub open spec fn in_limit(v: i64) -> bool {
    -COORD_LIMIT <= v <= COORD_LIMIT
}

pub open spec fn min_int(a: int, b: int) -> int {
    if a <= b { a } else { b }
}

pub open spec fn max_int(a: int, b: int) -> int {
    if a >= b { a } else { b }
}

impl Vec3 {
    /// Every coordinate lies within `COORD_LIMIT`.
    pub open spec fn wf(self) -> bool {
        in_limit(self.x) && in_limit(self.y) && in_limit(self.z)
    }
}

impl Mat4 {
    pub open spec fn wf(self) -> bool {
        self.col0.wf() && self.col1.wf() && self.col2.wf() && self.translation.wf()
    }

    /// Twice the image of the point `c / 2`: `2 * translation + c.x * col0 + c.y * col1 + c.z * col2`.
    pub open spec fn image_doubled(self, c: (int, int, int)) -> (int, int, int) {
        (
            2 * self.translation.x + c.0 * self.col0.x + c.1 * self.col1.x + c.2 * self.col2.x,
            2 * self.translation.y + c.0 * self.col0.y + c.1 * self.col1.y + c.2 * self.col2.y,
            2 * self.translation.z + c.0 * self.col0.z + c.1 * self.col1.z + c.2 * self.col2.z,
        )
    }
}

pub fn vec3(x: i64, y: i64, z: i64) -> (r: Vec3)
    ensures
        r == (Vec3 { x, y, z }),
{
    Vec3 { x, y, z }
}

/// True iff the two boxes overlap with positive extent on every axis: boxes
/// that only share a face, an edge or a corner do not overlap.
pub open spec fn overlap_spec(b0: BoundingBox, b1: BoundingBox) -> bool {
    b0.min.x < b1.max.x && b0.max.x > b1.min.x && b0.min.y < b1.max.y && b0.max.y > b1.min.y
        && b0.min.z < b1.max.z && b0.max.z > b1.min.z
}

pub fn boxes_overlap(b0: &BoundingBox, b1: &BoundingBox) -> (r: bool)
    ensures
        r == overlap_spec(*b0, *b1),
{
    b0.min.x < b1.max.x && b0.max.x > b1.min.x && b0.min.y < b1.max.y && b0.max.y > b1.min.y
        && b0.min.z < b1.max.z && b0.max.z > b1.min.z
}

/// Boxes that share exactly a face along x are reported as not overlapping.
pub proof fn lemma_touching_boxes_do_not_overlap(b0: BoundingBox, b1: BoundingBox)
    requires
        b0.max.x == b1.min.x,
    ensures
        !overlap_spec(b0, b1),
{
}

/// The corner of the unit cube centred at the origin with the given index,
/// doubled: bit 0, 1 and 2 of the index choose `+1` over `-1` for x, y and z.
pub open spec fn corner_doubled(corner_index: int) -> (int, int, int) {
    (
        if corner_index % 2 == 0 { -1 } else { 1 },
        if (corner_index / 2) % 2 == 0 { -1 } else { 1 },
        if (corner_index / 4) % 2 == 0 { -1 } else { 1 },
    )
}

/// Rounds `v / 2` down.
pub open spec fn half_floor(v: int) -> int {
    v / 2
}

/// Rounds `v / 2` up.
pub open spec fn half_ceil(v: int) -> int {
    (v + 1) / 2
}

impl BoundingBox {
    pub open spec fn wf(self) -> bool {
        self.min.wf() && self.max.wf()
    }

    /// `p` lies within the box, faces included.
    pub open spec fn contains_spec(self, p: Vec3) -> bool {
        self.min.x <= p.x <= self.max.x && self.min.y <= p.y <= self.max.y && self.min.z <= p.z
            <= self.max.z
    }

    /// The smallest box holding this box and `p`.
    pub open spec fn add_spec(self, p: Vec3) -> BoundingBox {
        BoundingBox {
            min: Vec3 {
                x: min_int(self.min.x as int, p.x as int) as i64,
                y: min_int(self.min.y as int, p.y as int) as i64,
                z: min_int(self.min.z as int, p.z as int) as i64,
            },
            max: Vec3 {
                x: max_int(self.max.x as int, p.x as int) as i64,
                y: max_int(self.max.y as int, p.y as int) as i64,
                z: max_int(self.max.z as int, p.z as int) as i64,
            },
        }
    }

    pub open spec fn empty_spec() -> BoundingBox {
        BoundingBox {
            min: Vec3 { x: i64::MAX, y: i64::MAX, z: i64::MAX },
            max: Vec3 { x: i64::MIN, y: i64::MIN, z: i64::MIN },
        }
    }

    /// The box that contains no point: `add_point` on it gives the box of one point.
    pub fn empty() -> (r: BoundingBox)
        ensures
            r == BoundingBox::empty_spec(),
            forall|p: Vec3| !r.contains_spec(p),
    {
        BoundingBox {
            min: vec3(i64::MAX, i64::MAX, i64::MAX),
            max: vec3(i64::MIN, i64::MIN, i64::MIN),
        }
    }

    pub fn add_point(&mut self, point: &Vec3)
        ensures
            *final(self) == old(self).add_spec(*point),
            final(self).contains_spec(*point),
            forall|q: Vec3| old(self).contains_spec(q) ==> final(self).contains_spec(q),
    {
        self.min = vec3(
            if point.x < self.min.x { point.x } else { self.min.x },
            if point.y < self.min.y { point.y } else { self.min.y },
            if point.z < self.min.z { point.z } else { self.min.z },
        );
        self.max = vec3(
            if point.x > self.max.x { point.x } else { self.max.x },
            if point.y > self.max.y { point.y } else { self.max.y },
            if point.z > self.max.z { point.z } else { self.max.z },
        );
    }

    /// True iff adding `point` would leave the box as it is.
    pub fn contains_point(&self, point: &Vec3) -> (r: bool)
        ensures
            r == self.contains_spec(*point),
            r == (self.add_spec(*point) == *self),
    {
        let mut grown = *self;
        grown.add_point(point);
        grown == *self
    }

    pub fn get_centered_unit_cube_corner(corner_index: u32) -> (r: Vec3)
        ensures
            (r.x as int, r.y as int, r.z as int) == corner_doubled(corner_index as int),
    {
        vec3(
            if corner_index % 2 == 0 { -1 } else { 1 },
            if (corner_index / 2) % 2 == 0 { -1 } else { 1 },
            if (corner_index / 4) % 2 == 0 { -1 } else { 1 },
        )
    }
}

pub open spec fn doubled_image_point(m: Mat4, corner_index: int) -> Vec3 {
    let c = m.image_doubled(corner_doubled(corner_index));
    Vec3 { x: c.0 as i64, y: c.1 as i64, z: c.2 as i64 }
}

/// The box of the doubled images of the first `n` corners of the unit cube.
pub open spec fn doubled_corner_hull(m: Mat4, n: nat) -> BoundingBox
    decreases n,
{
    if n == 0 {
        BoundingBox::empty_spec()
    } else {
        doubled_corner_hull(m, (n - 1) as nat).add_spec(doubled_image_point(m, n - 1))
    }
}

/// The smallest box with integer corners that holds the image under `m` of
/// the unit cube centred at the origin.
pub open spec fn transformed_unit_cube_spec(m: Mat4) -> BoundingBox {
    let h = doubled_corner_hull(m, 8);
    BoundingBox {
        min: Vec3 {
            x: half_floor(h.min.x as int) as i64,
            y: half_floor(h.min.y as int) as i64,
            z: half_floor(h.min.z as int) as i64,
        },
        max: Vec3 {
            x: half_ceil(h.max.x as int) as i64,
            y: half_ceil(h.max.y as int) as i64,
            z: half_ceil(h.max.z as int) as i64,
        },
    }
}

pub(crate) fn half_floor_exec(v: i64) -> (r: i64)
    requires
        -5 * COORD_LIMIT <= v <= 5 * COORD_LIMIT,
    ensures
        r == half_floor(v as int),
{
    if v >= 0 {
        v / 2
    } else {
        -((-v + 1) / 2)
    }
}

fn half_ceil_exec(v: i64) -> (r: i64)
    requires
        -5 * COORD_LIMIT <= v <= 5 * COORD_LIMIT,
    ensures
        r == half_ceil(v as int),
{
    if v >= 0 {
        (v + 1) / 2
    } else {
        -((-v) / 2)
    }
}

/// One coordinate of a doubled corner image: `2 * t + cx * a + cy * b + cz * c`
/// with each of `cx`, `cy`, `cz` equal to `1` or `-1`.
fn doubled_coordinate(t: i64, a: i64, b: i64, c: i64, corner: Vec3) -> (r: i64)
    requires
        in_limit(t),
        in_limit(a),
        in_limit(b),
        in_limit(c),
        corner.x == 1 || corner.x == -1,
        corner.y == 1 || corner.y == -1,
        corner.z == 1 || corner.z == -1,
    ensures
        r == 2 * t + corner.x * a + corner.y * b + corner.z * c,
        -5 * COORD_LIMIT <= r <= 5 * COORD_LIMIT,
{
    let sa = if corner.x > 0 { a } else { -a };
    let sb = if corner.y > 0 { b } else { -b };
    let sc = if corner.z > 0 { c } else { -c };
    2 * t + sa + sb + sc
}

impl BoundingBox {
    /// The box, with integer corners, that encloses the image under `matrix`
    /// of the unit cube centred at the origin.
    pub fn get_transformed_unit_cube(matrix: &Mat4) -> (r: BoundingBox)
        requires
            matrix.wf(),
        ensures
            r == transformed_unit_cube_spec(*matrix),
    {
        let mut hull = BoundingBox::empty();
        let mut corner_index: u32 = 0;
        while corner_index < 8
            invariant
                corner_index <= 8,
                matrix.wf(),
                hull == doubled_corner_hull(*matrix, corner_index as nat),
                corner_index > 0 ==> -5 * COORD_LIMIT <= hull.min.x && hull.max.x <= 5 * COORD_LIMIT,
                corner_index > 0 ==> -5 * COORD_LIMIT <= hull.min.y && hull.max.y <= 5 * COORD_LIMIT,
                corner_index > 0 ==> -5 * COORD_LIMIT <= hull.min.z && hull.max.z <= 5 * COORD_LIMIT,
                corner_index > 0 ==> hull.min.x <= hull.max.x && hull.min.y <= hull.max.y && hull.min.z <= hull.max.z,
            decreases 8 - corner_index,
        {
            let c = BoundingBox::get_centered_unit_cube_corner(corner_index);
            let m = matrix;
            let image = vec3(
                doubled_coordinate(m.translation.x, m.col0.x, m.col1.x, m.col2.x, c),
                doubled_coordinate(m.translation.y, m.col0.y, m.col1.y, m.col2.y, c),
                doubled_coordinate(m.translation.z, m.col0.z, m.col1.z, m.col2.z, c),
            );
            assert(image == doubled_image_point(*matrix, corner_index as int));
            hull.add_point(&image);
            corner_index = corner_index + 1;
        }
        BoundingBox {
            min: vec3(
                half_floor_exec(hull.min.x),
                half_floor_exec(hull.min.y),
                half_floor_exec(hull.min.z),
            ),
            max: vec3(
                half_ceil_exec(hull.max.x),
                half_ceil_exec(hull.max.y),
                half_ceil_exec(hull.max.z),
            ),
        }
    }
}

} // verus!
