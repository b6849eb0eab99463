use pointclouds::linalg::{boxes_overlap, vec3, BoundingBox, Mat4, Vec3, UNIT};
use pointclouds::shapes::{Cylinder, OrientedBox, Shape};

fn ticks(v: f64) -> i64 {
    (v * UNIT as f64).round() as i64
}

fn tv(x: f64, y: f64, z: f64) -> Vec3 {
    vec3(ticks(x), ticks(y), ticks(z))
}

fn unit_box(object_id: u16) -> OrientedBox {
    let identity = Mat4 {
        col0: vec3(1, 0, 0),
        col1: vec3(0, 1, 0),
        col2: vec3(0, 0, 1),
        translation: vec3(0, 0, 0),
    };
    let instance = Mat4 {
        col0: vec3(UNIT, 0, 0),
        col1: vec3(0, UNIT, 0),
        col2: vec3(0, 0, UNIT),
        translation: vec3(0, 0, 0),
    };
    OrientedBox::new(identity, UNIT, instance, object_id)
}

#[test]
fn cylinder_at_origin_contains_middle_point() {
    let cylinder = Cylinder::new(tv(0.0, -0.5, 0.0), tv(0.0, 0.5, 0.0), UNIT, 0);
    assert!(cylinder.contains_point(&tv(0.0, 0.0, 0.0)));
}

#[test]
fn cylinder_radius_and_height_limits() {
    let cylinder = Cylinder::new(tv(0.0, -0.5, 0.0), tv(0.0, 0.5, 0.0), UNIT, 0);
    assert!(cylinder.contains_point(&tv(0.0, 0.0, 0.0)));
    assert!(cylinder.contains_point(&tv(0.0, 0.0, 0.99)));
    assert!(!cylinder.contains_point(&tv(0.0, 0.0, 1.01)));
    assert!(!cylinder.contains_point(&tv(0.0, 0.51, 0.0)));
}

#[test]
fn cylinder_boundaries_are_strict() {
    let cylinder = Cylinder::new(vec3(0, -512, 0), vec3(0, 512, 0), 1024, 0);
    assert!(!cylinder.contains_point(&vec3(0, 0, 1024)));
    assert!(!cylinder.contains_point(&vec3(0, 512, 0)));
    assert!(cylinder.contains_point(&vec3(0, 511, 1023)));
}

#[test]
fn thin_diagonal_cylinder_contains_point_in_middle() {
    let center_a = tv(213.0, -33.0, 983.12);
    let center_b = tv(-12.0, 234.0, -10.0);
    let middle = vec3(
        (center_a.x + center_b.x) / 2,
        (center_a.y + center_b.y) / 2,
        (center_a.z + center_b.z) / 2,
    );
    let d = ticks(0.1);
    let outside_middle = vec3(middle.x + d, middle.y + d, middle.z + d);
    let cylinder = Cylinder::new(center_a, center_b, ticks(1e-2), 0);
    assert!(cylinder.contains_point(&middle));
    assert!(!cylinder.contains_point(&outside_middle));
}

#[test]
fn cylinder_bounding_box_contains_centers_but_not_more_along_axis() {
    let center_a = tv(21.0, -33.0, 98.0);
    let center_b = tv(-12.0, 23.0, -10.0);
    let (ax, ay, az) = (
        (center_a.x - center_b.x) as f64,
        (center_a.y - center_b.y) as f64,
        (center_a.z - center_b.z) as f64,
    );
    let len = (ax * ax + ay * ay + az * az).sqrt();
    let beyond = vec3(
        center_a.x + (ax / len * UNIT as f64).round() as i64,
        center_a.y + (ay / len * UNIT as f64).round() as i64,
        center_a.z + (az / len * UNIT as f64).round() as i64,
    );
    let cylinder = Cylinder::new(center_a, center_b, ticks(1e-2), 0);
    let bounding_box = cylinder.create_bounding_box();
    assert!(bounding_box.contains_point(&center_a));
    assert!(bounding_box.contains_point(&center_b));
    assert!(!bounding_box.contains_point(&beyond));
}

#[test]
fn cylinder_bounding_box_exact() {
    let cylinder = Cylinder::new(vec3(10, -20, 30), vec3(-5, 40, 30), 7, 3);
    let b = cylinder.create_bounding_box();
    assert_eq!(b.min, vec3(-12, -27, 23));
    assert_eq!(b.max, vec3(17, 47, 37));
    assert_eq!(cylinder.get_object_id(), 3);
}

#[test]
fn degenerate_cylinder_contains_nothing() {
    let cylinder = Cylinder::new(vec3(5, 5, 5), vec3(5, 5, 5), 100, 0);
    assert!(!cylinder.contains_point(&vec3(5, 5, 5)));
}

#[test]
fn unit_oriented_box_contains() {
    let b = unit_box(1);
    assert!(b.contains_point(&tv(0.49, 0.49, 0.49)));
    assert!(!b.contains_point(&tv(0.51, 0.0, 0.0)));
    assert!(b.contains_point(&tv(0.5, -0.5, 0.0)));
    assert!(!b.contains_point(&tv(0.0, 0.0, -0.51)));
}

#[test]
fn unit_oriented_box_bounding_box() {
    let b = unit_box(1).create_bounding_box();
    assert_eq!(b.min, vec3(-512, -512, -512));
    assert_eq!(b.max, vec3(512, 512, 512));
}

#[test]
fn transformed_unit_cube_rounds_outward() {
    let m = Mat4 {
        col0: vec3(3, 0, 0),
        col1: vec3(0, 2, 0),
        col2: vec3(1, 1, 5),
        translation: vec3(10, 0, -1),
    };
    let b = BoundingBox::get_transformed_unit_cube(&m);
    assert_eq!(b.min, vec3(8, -2, -4));
    assert_eq!(b.max, vec3(12, 2, 2));
}

#[test]
fn rotated_box_bounding_box() {
    // A quarter turn about z: local x runs along world y.
    let instance = Mat4 {
        col0: vec3(0, 200, 0),
        col1: vec3(-100, 0, 0),
        col2: vec3(0, 0, 50),
        translation: vec3(1000, 0, 0),
    };
    let b = BoundingBox::get_transformed_unit_cube(&instance);
    assert_eq!(b.min, vec3(950, -100, -25));
    assert_eq!(b.max, vec3(1050, 100, 25));
}

#[test]
fn shape_dispatches_to_variant() {
    let c = Shape::Cylinder(Cylinder::new(vec3(0, -512, 0), vec3(0, 512, 0), 1024, 4));
    let o = Shape::OrientedBox(unit_box(9));
    assert!(c.contains_point(&vec3(0, 0, 0)));
    assert!(o.contains_point(&vec3(0, 0, 0)));
    assert!(!o.contains_point(&vec3(600, 0, 0)));
    assert_eq!(c.get_object_id(), 4);
    assert_eq!(o.get_object_id(), 9);
    assert_eq!(o.create_bounding_box().max, vec3(512, 512, 512));
}

#[test]
fn boxes_sharing_a_face_do_not_overlap() {
    let b0 = BoundingBox { min: vec3(0, 0, 0), max: vec3(10, 10, 10) };
    let b1 = BoundingBox { min: vec3(10, 0, 0), max: vec3(20, 10, 10) };
    assert!(!boxes_overlap(&b0, &b1));
    assert!(!boxes_overlap(&b1, &b0));
    let b2 = BoundingBox { min: vec3(9, 0, 0), max: vec3(20, 10, 10) };
    assert!(boxes_overlap(&b0, &b2));
}

#[test]
fn boxes_sharing_an_edge_or_corner_do_not_overlap() {
    let b0 = BoundingBox { min: vec3(0, 0, 0), max: vec3(10, 10, 10) };
    let edge = BoundingBox { min: vec3(10, 10, 0), max: vec3(20, 20, 10) };
    let corner = BoundingBox { min: vec3(10, 10, 10), max: vec3(20, 20, 20) };
    assert!(!boxes_overlap(&b0, &edge));
    assert!(!boxes_overlap(&b0, &corner));
}

#[test]
fn empty_box_grows_by_points() {
    let mut b = BoundingBox::empty();
    assert!(!b.contains_point(&vec3(0, 0, 0)));
    b.add_point(&vec3(1, 2, 3));
    assert_eq!(b.min, vec3(1, 2, 3));
    assert_eq!(b.max, vec3(1, 2, 3));
    b.add_point(&vec3(-4, 5, 0));
    assert_eq!(b.min, vec3(-4, 2, 0));
    assert_eq!(b.max, vec3(1, 5, 3));
    let copy = b;
    b.add_point(&vec3(0, 3, 1));
    assert_eq!(b, copy);
    assert!(b.contains_point(&vec3(-4, 5, 3)));
    assert!(!b.contains_point(&vec3(-5, 5, 3)));
}

#[test]
fn unit_cube_corners_are_halves_doubled() {
    assert_eq!(BoundingBox::get_centered_unit_cube_corner(0), vec3(-1, -1, -1));
    assert_eq!(BoundingBox::get_centered_unit_cube_corner(1), vec3(1, -1, -1));
    assert_eq!(BoundingBox::get_centered_unit_cube_corner(6), vec3(-1, 1, 1));
    assert_eq!(BoundingBox::get_centered_unit_cube_corner(7), vec3(1, 1, 1));
}
