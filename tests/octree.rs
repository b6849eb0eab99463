use pointclouds::linalg::{vec3, BoundingBox, Vec3WithIndex, UNIT};
use pointclouds::point_octree::{
    find_splits, get_octree_child_index, sort_points_into_sectors, PointOctree,
    MAX_POINTS_PER_NODE, MIN_OCTREE_NODE_SIZE,
};

fn ticks(v: f64) -> i64 {
    (v * UNIT as f64).round() as i64
}

fn lcg(state: &mut u64) -> u64 {
    *state = state.wrapping_mul(6364136223846793005).wrapping_add(1442695040888963407);
    *state >> 33
}

#[test]
fn test_sector_inplace_sorting() {
    const NUM_POINTS: usize = 300;

    let mut points: Vec<Vec3WithIndex> = Vec::with_capacity(NUM_POINTS);

    let original_points = points.clone();

    for i in 0..NUM_POINTS {
        let p = vec3(
            ticks(((i * 4) as f64).sin()),
            ticks(((i * 7) as f64).cos()),
            ticks(((i * 3) as f64 + 0.12).sin()),
        );
        points.push(Vec3WithIndex { vec: p, index: i as u32 });
    }

    let middle = vec3(0, 0, 0);

    let n = points.len();
    let splits = find_splits(&points, 0, n, &middle);
    sort_points_into_sectors(&mut points, 0, n, &splits, &middle);

    let mut num_points_checked = 0;

    for sector_index in 0..8 {
        let max_ind = if sector_index == 7 { points.len() } else { splits[sector_index + 1] };
        for point_index in splits[sector_index]..max_ind {
            assert_eq!(get_octree_child_index(&points[point_index], &middle), sector_index);
            num_points_checked += 1;
        }
    }

    for og_point in original_points {
        let mut found = false;
        for new_point in points.iter() {
            if new_point == &og_point {
                found = true;
                break;
            }
        }

        assert!(found);
    }

    assert_eq!(num_points_checked, points.len());
}

#[test]
fn partition_keeps_every_point_and_its_index() {
    let mut state = 7u64;
    let mut points = Vec::new();
    for i in 0..500u32 {
        let x = (lcg(&mut state) % 2001) as i64 - 1000;
        let y = (lcg(&mut state) % 2001) as i64 - 1000;
        let z = (lcg(&mut state) % 2001) as i64 - 1000;
        points.push(Vec3WithIndex { vec: vec3(x, y, z), index: i });
    }
    let before = points.clone();
    let middle = vec3(10, -20, 30);
    let splits = find_splits(&points, 100, 400, &middle);
    sort_points_into_sectors(&mut points, 100, 400, &splits, &middle);
    assert_eq!(&points[..100], &before[..100]);
    assert_eq!(&points[400..], &before[400..]);
    let mut a: Vec<(u32, i64, i64, i64)> =
        before.iter().map(|p| (p.index, p.vec.x, p.vec.y, p.vec.z)).collect();
    let mut b: Vec<(u32, i64, i64, i64)> =
        points.iter().map(|p| (p.index, p.vec.x, p.vec.y, p.vec.z)).collect();
    a.sort();
    b.sort();
    assert_eq!(a, b);
    for k in 0..8 {
        let hi = if k == 7 { 400 } else { splits[k + 1] };
        for i in splits[k]..hi {
            assert_eq!(get_octree_child_index(&points[i], &middle), k);
        }
    }
}

#[test]
fn find_splits_counts_octants() {
    let pts = vec![
        Vec3WithIndex { vec: vec3(1, 1, 1), index: 0 },
        Vec3WithIndex { vec: vec3(-1, -1, -1), index: 1 },
        Vec3WithIndex { vec: vec3(1, -1, -1), index: 2 },
        Vec3WithIndex { vec: vec3(1, 1, 1), index: 3 },
        Vec3WithIndex { vec: vec3(0, 0, 0), index: 4 },
    ];
    let splits = find_splits(&pts, 0, 5, &vec3(0, 0, 0));
    assert_eq!(splits, vec![0, 1, 2, 2, 2, 2, 2, 2]);
}

#[test]
fn child_index_uses_at_or_above_middle() {
    let middle = vec3(0, 0, 0);
    let p = |x, y, z| Vec3WithIndex { vec: vec3(x, y, z), index: 0 };
    assert_eq!(get_octree_child_index(&p(-1, -1, -1), &middle), 0);
    assert_eq!(get_octree_child_index(&p(0, -1, -1), &middle), 1);
    assert_eq!(get_octree_child_index(&p(-1, 0, -1), &middle), 2);
    assert_eq!(get_octree_child_index(&p(-1, -1, 0), &middle), 4);
    assert_eq!(get_octree_child_index(&p(5, 5, 5), &middle), 7);
}

#[test]
fn million_points_leaves_are_small_and_cover_all() {
    let n = 1_000_000usize;
    let side = ticks(10.0);
    let mut state = 42u64;
    let mut points = Vec::with_capacity(n);
    for i in 0..n {
        let x = (lcg(&mut state) % (side as u64 + 1)) as i64;
        let y = (lcg(&mut state) % (side as u64 + 1)) as i64;
        let z = (lcg(&mut state) % (side as u64 + 1)) as i64;
        points.push(Vec3WithIndex { vec: vec3(x, y, z), index: i as u32 });
    }
    let bbox = BoundingBox { min: vec3(0, 0, 0), max: vec3(side, side, side) };
    let octree = PointOctree::new(bbox, points);
    let mut total = 0usize;
    let mut leaves = 0usize;
    for node in octree.nodes.iter() {
        if node.children.is_empty() {
            leaves += 1;
            let size = node.end - node.start;
            let node_side = node.bounding_box.max.x - node.bounding_box.min.x;
            assert!(size <= MAX_POINTS_PER_NODE || node_side < MIN_OCTREE_NODE_SIZE);
            total += size;
        } else {
            assert_eq!(node.children.len(), 8);
        }
    }
    assert!(leaves > 1);
    assert_eq!(total, n);
    assert_eq!(octree.points.len(), n);
    let root = &octree.nodes[octree.root];
    assert_eq!((root.start, root.end), (0, n));
}

#[test]
fn leaf_boxes_hold_their_points() {
    let mut state = 3u64;
    let mut points = Vec::new();
    for i in 0..5000u32 {
        let x = (lcg(&mut state) % 4097) as i64 - 2048;
        let y = (lcg(&mut state) % 4097) as i64 - 2048;
        let z = (lcg(&mut state) % 4097) as i64 - 2048;
        points.push(Vec3WithIndex { vec: vec3(x, y, z), index: i });
    }
    let bbox = BoundingBox { min: vec3(-2048, -2048, -2048), max: vec3(2048, 2048, 2048) };
    let octree = PointOctree::new(bbox, points);
    assert!(octree.nodes.len() > 1);
    for node in octree.nodes.iter() {
        for p in &octree.points[node.start..node.end] {
            assert!(node.bounding_box.contains_point(&p.vec));
        }
    }
}

#[test]
fn small_cloud_is_a_single_leaf() {
    let points: Vec<Vec3WithIndex> =
        (0..10u32).map(|i| Vec3WithIndex { vec: vec3(i as i64, 0, 0), index: i }).collect();
    let bbox = BoundingBox { min: vec3(0, 0, 0), max: vec3(100, 100, 100) };
    let octree = PointOctree::new(bbox, points);
    assert_eq!(octree.nodes.len(), 1);
    assert!(octree.nodes[0].children.is_empty());
}

#[test]
fn empty_cloud_builds_one_empty_leaf() {
    let bbox = BoundingBox { min: vec3(0, 0, 0), max: vec3(100, 100, 100) };
    let octree = PointOctree::new(bbox, Vec::new());
    assert_eq!(octree.nodes.len(), 1);
    assert_eq!(octree.nodes[0].end, 0);
}

#[test]
fn dense_cluster_stops_at_minimum_node_size() {
    let points: Vec<Vec3WithIndex> =
        (0..3000u32).map(|i| Vec3WithIndex { vec: vec3(5, 5, 5), index: i }).collect();
    let bbox = BoundingBox { min: vec3(0, 0, 0), max: vec3(1024, 1024, 1024) };
    let octree = PointOctree::new(bbox, points);
    for node in octree.nodes.iter() {
        if node.children.is_empty() && node.end - node.start > MAX_POINTS_PER_NODE {
            assert!(node.bounding_box.max.x - node.bounding_box.min.x < MIN_OCTREE_NODE_SIZE);
        }
    }
}
