use pointclouds::assign_points;
use pointclouds::linalg::{vec3, BoundingBox, Mat4, Vec3WithIndex};
use pointclouds::point_octree::PointOctree;
use pointclouds::shapes::{Cylinder, OrientedBox, Shape};

fn lcg(state: &mut u64) -> u64 {
    *state = state.wrapping_mul(6364136223846793005).wrapping_add(1442695040888963407);
    *state >> 33
}

fn cloud(n: u32, half: i64, seed: u64) -> Vec<Vec3WithIndex> {
    let mut state = seed;
    let m = (2 * half + 1) as u64;
    (0..n)
        .map(|i| {
            let x = (lcg(&mut state) % m) as i64 - half;
            let y = (lcg(&mut state) % m) as i64 - half;
            let z = (lcg(&mut state) % m) as i64 - half;
            Vec3WithIndex { vec: vec3(x, y, z), index: i }
        })
        .collect()
}

fn cube(half: i64) -> BoundingBox {
    BoundingBox { min: vec3(-half, -half, -half), max: vec3(half, half, half) }
}

fn scaled_box(center: (i64, i64, i64), half: i64, object_id: u16) -> Shape {
    // local = (p - center) / (2 * half)
    let inverse = Mat4 {
        col0: vec3(1, 0, 0),
        col1: vec3(0, 1, 0),
        col2: vec3(0, 0, 1),
        translation: vec3(-center.0, -center.1, -center.2),
    };
    let instance = Mat4 {
        col0: vec3(2 * half, 0, 0),
        col1: vec3(0, 2 * half, 0),
        col2: vec3(0, 0, 2 * half),
        translation: vec3(center.0, center.1, center.2),
    };
    Shape::OrientedBox(OrientedBox::new(inverse, 2 * half, instance, object_id))
}

#[test]
fn query_marks_exactly_the_contained_points() {
    let points = cloud(20000, 5000, 11);
    let shape =
        Shape::Cylinder(Cylinder::new(vec3(-3000, -1000, 200), vec3(2500, 1500, -400), 900, 5));
    let octree = PointOctree::new(cube(5000), points.clone());
    let mut ids = vec![0u16; points.len()];
    octree.assign(&shape, &mut ids);
    let mut hits = 0;
    for p in &points {
        let expected = if shape.contains_point(&p.vec) { 5 } else { 0 };
        assert_eq!(ids[p.index as usize], expected);
        hits += (expected == 5) as usize;
    }
    assert!(hits > 0);
}

#[test]
fn assign_twice_equals_once() {
    let points = cloud(5000, 3000, 5);
    let shape = Shape::Cylinder(Cylinder::new(vec3(0, -2000, 0), vec3(0, 2000, 0), 800, 2));
    let octree = PointOctree::new(cube(3000), points.clone());
    let mut once = vec![0u16; points.len()];
    octree.assign(&shape, &mut once);
    let mut twice = once.clone();
    octree.assign(&shape, &mut twice);
    assert_eq!(once, twice);
    assert!(once.iter().any(|&id| id == 2));
}

#[test]
fn later_shape_wins_on_shared_points() {
    let points = vec![
        Vec3WithIndex { vec: vec3(0, 0, 0), index: 0 },
        Vec3WithIndex { vec: vec3(-300, 0, 0), index: 1 },
        Vec3WithIndex { vec: vec3(300, 0, 0), index: 2 },
        Vec3WithIndex { vec: vec3(900, 900, 900), index: 3 },
    ];
    let a = scaled_box((-150, 0, 0), 250, 1);
    let b = scaled_box((150, 0, 0), 250, 2);
    let ids = assign_points(cube(1000), points.clone(), &vec![a, b]);
    assert_eq!(ids, vec![2, 1, 2, 0]);
    let ids = assign_points(cube(1000), points, &vec![b, a]);
    assert_eq!(ids, vec![1, 1, 2, 0]);
}

#[test]
fn assign_points_on_larger_cloud_matches_direct_tests() {
    let points = cloud(30000, 4000, 99);
    let shapes = vec![
        scaled_box((1000, 1000, 1000), 1500, 7),
        Shape::Cylinder(Cylinder::new(vec3(-3000, 0, 0), vec3(3000, 0, 0), 1200, 8)),
    ];
    let ids = assign_points(cube(4000), points.clone(), &shapes);
    assert_eq!(ids.len(), points.len());
    for p in &points {
        let mut expected = 0;
        for s in &shapes {
            if s.contains_point(&p.vec) {
                expected = s.get_object_id();
            }
        }
        assert_eq!(ids[p.index as usize], expected);
    }
}

#[test]
fn no_shapes_leaves_all_zero() {
    let points = cloud(100, 100, 1);
    let ids = assign_points(cube(100), points, &Vec::new());
    assert_eq!(ids, vec![0u16; 100]);
}
