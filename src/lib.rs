//! Assigns object ids to the points of a point cloud by testing them against
//! cylinders and oriented boxes, with an octree that prunes the tests.
//!
//! Coordinates are fixed-point integers: `linalg::UNIT` ticks make one unit of
//! the cloud's working space.
pub mod linalg;
pub mod point_octree;
pub mod shapes;

use vstd::prelude::*;
use crate::linalg::{BoundingBox, Vec3WithIndex};
use crate::point_octree::{
    box_bounds_shape, in_box, lemma_multiset_member, lemma_query_matches_containment, marks,
    reaches, PointOctree,
};
use crate::shapes::Shape;

verus! {

/// Some point with external index `e` lies in `shape`.
pub open spec fn shape_holds_index(pts: Seq<Vec3WithIndex>, shape: Shape, e: int) -> bool {
    exists|pi: int|
        0 <= pi < pts.len() && #[trigger] pts[pi].index == e && shape.contains_spec(pts[pi].vec)
}

/// The id of the last of the first `k` shapes that holds a point with
/// external index `e`, or 0 when none does.
pub open spec fn last_id(shapes: Seq<Shape>, pts: Seq<Vec3WithIndex>, e: int, k: int) -> u16
    decreases k,
{
    if k <= 0 {
        0
    } else if shape_holds_index(pts, shapes[k - 1], e) {
        shapes[k - 1].object_id_spec()
    } else {
        last_id(shapes, pts, e, k - 1)
    }
}

proof fn lemma_holds_index_same(a: Seq<Vec3WithIndex>, b: Seq<Vec3WithIndex>, shape: Shape, e: int)
    requires
        a.to_multiset() =~= b.to_multiset(),
    ensures
        shape_holds_index(a, shape, e) == shape_holds_index(b, shape, e),
{
    if shape_holds_index(a, shape, e) {
        let pi = choose|pi: int| 0 <= pi < a.len() && #[trigger] a[pi].index == e && shape.contains_spec(a[pi].vec);
        let j = lemma_multiset_member(b, a, pi);
        assert(b[j].index == e);
    }
    if shape_holds_index(b, shape, e) {
        let pi = choose|pi: int| 0 <= pi < b.len() && #[trigger] b[pi].index == e && shape.contains_spec(b[pi].vec);
        let j = lemma_multiset_member(a, b, pi);
        assert(a[j].index == e);
    }
}

/// Builds the octree over `points` with root box `bounding_box`, then runs
/// the query for each shape in turn, and returns one object id per external
/// index, 0 where no shape wrote one.
///
/// When the root box holds every point and each shape's box holds the
/// points it contains strictly inside, the id at `e` is that of the last
/// shape that contains a point with external index `e`.
pub fn assign_points(bounding_box: BoundingBox, points: Vec<Vec3WithIndex>, shapes: &Vec<Shape>) -> (r: Vec<u16>)
    requires
        bounding_box.wf(),
        forall|pi: int|
            0 <= pi < points.len() ==> (#[trigger] points@[pi]).vec.wf() && points@[pi].index
                < points.len(),
        forall|k: int| 0 <= k < shapes.len() ==> (#[trigger] shapes@[k]).wf(),
    ensures
        r.len() == points.len(),
        forall|e: int|
            0 <= e < points.len() ==> #[trigger] r@[e] == 0 || exists|k: int|
                0 <= k < shapes.len() && r@[e] == shapes@[k].object_id_spec()
                    && shape_holds_index(points@, #[trigger] shapes@[k], e),
        in_box(points@, 0, points.len() as int, bounding_box) && (forall|k: int, pi: int|
            0 <= k < shapes.len() && 0 <= pi < points.len() ==> box_bounds_shape(
                #[trigger] shapes@[k],
                #[trigger] points@[pi].vec,
            )) ==> forall|e: int|
            0 <= e < points.len() ==> #[trigger] r@[e] == last_id(shapes@, points@, e, shapes.len() as int),
{
    let ghost pts0 = points@;
    let n = points.len();
    let mut object_ids: Vec<u16> = Vec::new();
    let mut i: usize = 0;
    while i < n
        invariant
            i <= n,
            object_ids.len() == i,
            forall|e: int| 0 <= e < i ==> #[trigger] object_ids@[e] == 0,
        decreases n - i,
    {
        object_ids.push(0);
        i = i + 1;
    }
    let octree = PointOctree::new(bounding_box, points);
    assert(forall|e: int| 0 <= e < n ==> #[trigger] object_ids@[e] == 0);
    let ghost premise = in_box(pts0, 0, n as int, bounding_box) && (forall|k: int, pi: int|
        0 <= k < shapes.len() && 0 <= pi < n ==> box_bounds_shape(
            #[trigger] shapes@[k],
            #[trigger] pts0[pi].vec,
        ));
    proof {
        assert forall|pi: int| 0 <= pi < octree.points.len() implies (#[trigger] octree.points@[pi]).index < n by {
            let j = lemma_multiset_member(pts0, octree.points@, pi);
        }
    }
    let mut k: usize = 0;
    while k < shapes.len()
        invariant
            k <= shapes.len(),
            octree.wf(),
            octree.points@.to_multiset() =~= pts0.to_multiset(),
            octree.points.len() == n,
            pts0.len() == n,
            in_box(pts0, 0, n as int, bounding_box) ==> octree.tight(),
            octree.indices_below(n as int),
            forall|q: int| 0 <= q < shapes.len() ==> (#[trigger] shapes@[q]).wf(),
            premise == (in_box(pts0, 0, n as int, bounding_box) && (forall|q: int, pi: int|
                0 <= q < shapes.len() && 0 <= pi < n ==> box_bounds_shape(
                    #[trigger] shapes@[q],
                    #[trigger] pts0[pi].vec,
                ))),
            object_ids.len() == n,
            forall|e: int|
                0 <= e < n ==> #[trigger] object_ids@[e] == 0 || exists|q: int|
                    0 <= q < k && object_ids@[e] == shapes@[q].object_id_spec()
                        && shape_holds_index(pts0, #[trigger] shapes@[q], e),
            premise ==> forall|e: int|
                0 <= e < n ==> #[trigger] object_ids@[e] == last_id(shapes@, pts0, e, k as int),
        decreases shapes.len() - k,
    {
        let ghost before = object_ids@;
        octree.assign(&shapes[k], &mut object_ids);
        proof {
            let shape = shapes@[k as int];
            assert forall|e: int| 0 <= e < n implies #[trigger] object_ids@[e] == 0 || exists|q: int|
                0 <= q < k + 1 && object_ids@[e] == shapes@[q].object_id_spec()
                    && shape_holds_index(pts0, #[trigger] shapes@[q], e) by {
                if marks(octree.points@, octree.nodes@, octree.root as int, shape.bounding_box_spec(), shape, e) {
                    let pi = choose|pi: int| 0 <= pi < octree.points.len() && #[trigger] octree.points@[pi].index == e
                        && shape.contains_spec(octree.points@[pi].vec)
                        && reaches(octree.nodes@, octree.root as int, shape.bounding_box_spec(), pi);
                    assert(shape_holds_index(octree.points@, shape, e));
                    lemma_holds_index_same(octree.points@, pts0, shape, e);
                    assert(object_ids@[e] == shapes@[k as int].object_id_spec());
                } else {
                    assert(object_ids@[e] == before[e]);
                    if before[e] != 0 {
                        let q = choose|q: int| 0 <= q < k && before[e] == shapes@[q].object_id_spec()
                            && shape_holds_index(pts0, #[trigger] shapes@[q], e);
                        assert(0 <= q < k + 1);
                    }
                }
            }
        }
        proof {
            if premise {
                let shape = shapes@[k as int];
                assert forall|pi: int| 0 <= pi < octree.points.len() implies box_bounds_shape(shape, #[trigger] octree.points@[pi].vec) by {
                    let j = lemma_multiset_member(pts0, octree.points@, pi);
                    assert(box_bounds_shape(shapes@[k as int], pts0[j].vec));
                }
                assert forall|e: int| 0 <= e < n implies #[trigger] object_ids@[e] == last_id(shapes@, pts0, e, k + 1) by {
                    lemma_query_matches_containment(octree, shape, before, e);
                    lemma_holds_index_same(octree.points@, pts0, shape, e);
                    assert(shape_holds_index(octree.points@, shape, e) == exists|pi: int|
                        0 <= pi < octree.points.len() && #[trigger] octree.points@[pi].index == e
                            && shape.contains_spec(octree.points@[pi].vec));
                }
            }
        }
        k = k + 1;
    }
    object_ids
}

} // verus!
