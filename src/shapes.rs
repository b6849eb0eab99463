//! The solids that points are tested against: cylinders and oriented boxes.
use vstd::prelude::*;
use crate::linalg::{
    BoundingBox, Mat4, Vec3, vec3, in_limit, max_int, min_int, transformed_unit_cube_spec,
    COORD_LIMIT,
};

verus! {

/// `|a * b| <= x * y` when `|a| <= x` and `|b| <= y`.
proof fn lemma_mul_abs_le(a: int, b: int, x: int, y: int)
    requires
        -x <= a <= x,
        -y <= b <= y,
    ensures
        -(x * y) <= a * b <= x * y,
{
    assert(-(x * y) <= a * b <= x * y) by (nonlinear_arith)
        requires
            -x <= a <= x,
            -y <= b <= y,
    ;
}

pub open spec fn dot(a: (int, int, int), b: (int, int, int)) -> int {
    a.0 * b.0 + a.1 * b.1 + a.2 * b.2
}

/// A solid cylinder between two end centres. A point is inside when its
/// distance along the axis from the midpoint is below half the height and
/// its distance from the axis is below the radius.
#[derive(Clone, Copy, Debug, PartialEq, Eq, Structural)]
pub struct Cylinder {
    pub center_a: Vec3,
    pub center_b: Vec3,
    pub radius: i64,
    pub object_id: u16,
}

impl Cylinder {
    pub open spec fn wf(self) -> bool {
        self.center_a.wf() && self.center_b.wf() && 0 <= self.radius <= COORD_LIMIT
    }

    /// The axis `a - b`.
    pub open spec fn axis(self) -> (int, int, int) {
        (
            self.center_a.x - self.center_b.x,
            self.center_a.y - self.center_b.y,
            self.center_a.z - self.center_b.z,
        )
    }

    /// Twice the offset of `p` from the midpoint: `2 * p - a - b`.
    pub open spec fn offset2(self, p: Vec3) -> (int, int, int) {
        (
            2 * p.x - self.center_a.x - self.center_b.x,
            2 * p.y - self.center_a.y - self.center_b.y,
            2 * p.z - self.center_a.z - self.center_b.z,
        )
    }

    /// With `u = a - b` and `w = 2 * p - a - b`, the distance along the axis
    /// is `w.u / (2 |u|)` and half the height is `|u| / 2`; the squared
    /// distance from the axis is `(|w|^2 |u|^2 - (w.u)^2) / (4 |u|^2)`.
    /// Both strict comparisons are taken with the denominators multiplied out.
    /// A cylinder whose two centres coincide contains no point.
    pub open spec fn contains_spec(self, p: Vec3) -> bool {
        let u = self.axis();
        let w = self.offset2(p);
        let wu = dot(w, u);
        let uu = dot(u, u);
        &&& -uu < wu < uu
        &&& dot(w, w) * uu - wu * wu < 4 * (self.radius * self.radius) * uu
    }

    /// The box of the two end centres, grown by the radius on every side.
    pub open spec fn bounding_box_spec(self) -> BoundingBox {
        let a = self.center_a;
        let b = self.center_b;
        let r = self.radius;
        BoundingBox {
            min: Vec3 {
                x: (min_int(a.x as int, b.x as int) - r) as i64,
                y: (min_int(a.y as int, b.y as int) - r) as i64,
                z: (min_int(a.z as int, b.z as int) - r) as i64,
            },
            max: Vec3 {
                x: (max_int(a.x as int, b.x as int) + r) as i64,
                y: (max_int(a.y as int, b.y as int) + r) as i64,
                z: (max_int(a.z as int, b.z as int) + r) as i64,
            },
        }
    }

    pub fn new(center_a: Vec3, center_b: Vec3, radius: i64, object_id: u16) -> (r: Cylinder)
        ensures
            r == (Cylinder { center_a, center_b, radius, object_id }),
    {
        Cylinder { center_a, center_b, radius, object_id }
    }

    pub fn contains_point(&self, point: &Vec3) -> (r: bool)
        requires
            self.wf(),
            point.wf(),
        ensures
            r == self.contains_spec(*point),
    {
        let a = self.center_a;
        let b = self.center_b;
        let ux = a.x as i128 - b.x as i128;
        let uy = a.y as i128 - b.y as i128;
        let uz = a.z as i128 - b.z as i128;
        let wx = 2 * (point.x as i128) - a.x as i128 - b.x as i128;
        let wy = 2 * (point.y as i128) - a.y as i128 - b.y as i128;
        let wz = 2 * (point.z as i128) - a.z as i128 - b.z as i128;
        proof {
            lemma_mul_abs_le(ux as int, ux as int, 0x20000000, 0x20000000);
            lemma_mul_abs_le(uy as int, uy as int, 0x20000000, 0x20000000);
            lemma_mul_abs_le(uz as int, uz as int, 0x20000000, 0x20000000);
            lemma_mul_abs_le(wx as int, ux as int, 0x40000000, 0x20000000);
            lemma_mul_abs_le(wy as int, uy as int, 0x40000000, 0x20000000);
            lemma_mul_abs_le(wz as int, uz as int, 0x40000000, 0x20000000);
            lemma_mul_abs_le(wx as int, wx as int, 0x40000000, 0x40000000);
            lemma_mul_abs_le(wy as int, wy as int, 0x40000000, 0x40000000);
            lemma_mul_abs_le(wz as int, wz as int, 0x40000000, 0x40000000);
        }
        let uu = ux * ux + uy * uy + uz * uz;
        let wu = wx * ux + wy * uy + wz * uz;
        let ww = wx * wx + wy * wy + wz * wz;
        proof {
            lemma_mul_abs_le(self.radius as int, self.radius as int, COORD_LIMIT as int, COORD_LIMIT as int);
        }
        let rr = (self.radius as i128) * (self.radius as i128);
        proof {
            lemma_mul_abs_le(wu as int, wu as int, 0x1800000000000000, 0x1800000000000000);
            lemma_mul_abs_le(ww as int, uu as int, 0xc000000000000000, 0xc00000000000000);
            lemma_mul_abs_le(self.radius as int, self.radius as int, COORD_LIMIT as int, COORD_LIMIT as int);
            lemma_mul_abs_le(4 * rr as int, uu as int, 0x400000000000000, 0xc00000000000000);
        }
        -uu < wu && wu < uu && ww * uu - wu * wu < 4 * rr * uu
    }

    /// A box that holds the whole cylinder.
    pub fn create_bounding_box(&self) -> (r: BoundingBox)
        requires
            self.wf(),
        ensures
            r == self.bounding_box_spec(),
    {
        let a = self.center_a;
        let b = self.center_b;
        let r = self.radius;
        BoundingBox {
            min: vec3(
                (if a.x <= b.x { a.x } else { b.x }) - r,
                (if a.y <= b.y { a.y } else { b.y }) - r,
                (if a.z <= b.z { a.z } else { b.z }) - r,
            ),
            max: vec3(
                (if a.x >= b.x { a.x } else { b.x }) + r,
                (if a.y >= b.y { a.y } else { b.y }) + r,
                (if a.z >= b.z { a.z } else { b.z }) + r,
            ),
        }
    }

    pub fn get_object_id(&self) -> (r: u16)
        ensures
            r == self.object_id,
    {
        self.object_id
    }
}

/// One coordinate of `t + px * a + py * b + pz * c`.
pub open spec fn affine_coordinate(t: i64, a: i64, b: i64, c: i64, p: Vec3) -> int {
    t + p.x * a + p.y * b + p.z * c
}

fn affine_coordinate_exec(t: i64, a: i64, b: i64, c: i64, p: &Vec3) -> (r: i128)
    requires
        in_limit(t),
        in_limit(a),
        in_limit(b),
        in_limit(c),
        p.wf(),
    ensures
        r == affine_coordinate(t, a, b, c, *p),
        -0x400000000000000 <= r <= 0x400000000000000,
{
    proof {
        lemma_mul_abs_le(p.x as int, a as int, COORD_LIMIT as int, COORD_LIMIT as int);
        lemma_mul_abs_le(p.y as int, b as int, COORD_LIMIT as int, COORD_LIMIT as int);
        lemma_mul_abs_le(p.z as int, c as int, COORD_LIMIT as int, COORD_LIMIT as int);
    }
    t as i128 + (p.x as i128) * (a as i128) + (p.y as i128) * (b as i128) + (p.z as i128) * (
    c as i128)
}

/// A box of any orientation. `inv_instance_matrix / scale` maps world space
/// onto the box's local space, where the box is the unit cube centred at the
/// origin; `instance_matrix` maps the unit cube back onto the box.
#[derive(Clone, Copy, Debug, PartialEq, Eq, Structural)]
pub struct OrientedBox {
    pub inv_instance_matrix: Mat4,
    pub scale: i64,
    pub instance_matrix: Mat4,
    pub object_id: u16,
}

impl OrientedBox {
    pub open spec fn wf(self) -> bool {
        self.inv_instance_matrix.wf() && self.instance_matrix.wf() && 0 < self.scale
            <= COORD_LIMIT
    }

    /// The local coordinates of `p`, times `scale`.
    pub open spec fn local_scaled(self, p: Vec3) -> (int, int, int) {
        let m = self.inv_instance_matrix;
        (
            affine_coordinate(m.translation.x, m.col0.x, m.col1.x, m.col2.x, p),
            affine_coordinate(m.translation.y, m.col0.y, m.col1.y, m.col2.y, p),
            affine_coordinate(m.translation.z, m.col0.z, m.col1.z, m.col2.z, p),
        )
    }

    /// Every local coordinate of `p` lies within `[-0.5, 0.5]`.
    pub open spec fn contains_spec(self, p: Vec3) -> bool {
        let l = self.local_scaled(p);
        &&& -self.scale <= 2 * l.0 <= self.scale
        &&& -self.scale <= 2 * l.1 <= self.scale
        &&& -self.scale <= 2 * l.2 <= self.scale
    }

    pub fn new(inv_instance_matrix: Mat4, scale: i64, instance_matrix: Mat4, object_id: u16) -> (r: OrientedBox)
        ensures
            r == (OrientedBox { inv_instance_matrix, scale, instance_matrix, object_id }),
    {
        OrientedBox { inv_instance_matrix, scale, instance_matrix, object_id }
    }

    pub fn contains_point(&self, point: &Vec3) -> (r: bool)
        requires
            self.wf(),
            point.wf(),
        ensures
            r == self.contains_spec(*point),
    {
        let m = &self.inv_instance_matrix;
        let s = self.scale as i128;
        let lx = affine_coordinate_exec(m.translation.x, m.col0.x, m.col1.x, m.col2.x, point);
        let ly = affine_coordinate_exec(m.translation.y, m.col0.y, m.col1.y, m.col2.y, point);
        let lz = affine_coordinate_exec(m.translation.z, m.col0.z, m.col1.z, m.col2.z, point);
        -s <= 2 * lx && 2 * lx <= s && -s <= 2 * ly && 2 * ly <= s && -s <= 2 * lz && 2 * lz <= s
    }

    /// The box of the unit cube's image under `instance_matrix`.
    pub fn create_bounding_box(&self) -> (r: BoundingBox)
        requires
            self.wf(),
        ensures
            r == transformed_unit_cube_spec(self.instance_matrix),
    {
        BoundingBox::get_transformed_unit_cube(&self.instance_matrix)
    }

    pub fn get_object_id(&self) -> (r: u16)
        ensures
            r == self.object_id,
    {
        self.object_id
    }
}

/// A solid that points are tested against.
#[derive(Clone, Copy, Debug, PartialEq, Eq, Structural)]
pub enum Shape {
    Cylinder(Cylinder),
    OrientedBox(OrientedBox),
}

impl Shape {
    pub open spec fn wf(self) -> bool {
        match self {
            Shape::Cylinder(c) => c.wf(),
            Shape::OrientedBox(b) => b.wf(),
        }
    }

    pub open spec fn contains_spec(self, p: Vec3) -> bool {
        match self {
            Shape::Cylinder(c) => c.contains_spec(p),
            Shape::OrientedBox(b) => b.contains_spec(p),
        }
    }

    pub open spec fn bounding_box_spec(self) -> BoundingBox {
        match self {
            Shape::Cylinder(c) => c.bounding_box_spec(),
            Shape::OrientedBox(b) => transformed_unit_cube_spec(b.instance_matrix),
        }
    }

    pub open spec fn object_id_spec(self) -> u16 {
        match self {
            Shape::Cylinder(c) => c.object_id,
            Shape::OrientedBox(b) => b.object_id,
        }
    }

    pub fn contains_point(&self, point: &Vec3) -> (r: bool)
        requires
            self.wf(),
            point.wf(),
        ensures
            r == self.contains_spec(*point),
    {
        match self {
            Shape::Cylinder(c) => c.contains_point(point),
            Shape::OrientedBox(b) => b.contains_point(point),
        }
    }

    pub fn create_bounding_box(&self) -> (r: BoundingBox)
        requires
            self.wf(),
        ensures
            r == self.bounding_box_spec(),
    {
        match self {
            Shape::Cylinder(c) => c.create_bounding_box(),
            Shape::OrientedBox(b) => b.create_bounding_box(),
        }
    }

    pub fn get_object_id(&self) -> (r: u16)
        ensures
            r == self.object_id_spec(),
    {
        match self {
            Shape::Cylinder(c) => c.get_object_id(),
            Shape::OrientedBox(b) => b.get_object_id(),
        }
    }
}

} // verus!
