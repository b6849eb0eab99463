//! The octree over the points of a cloud: in-place partition of a point range
//! into octants, construction, and the query that writes object ids.
use vstd::prelude::*;
use crate::shapes::Shape;
use crate::linalg::{BoundingBox, Vec3, Vec3WithIndex, vec3, half_floor_exec, overlap_spec, COORD_LIMIT};

verus! {

/// A node with at most this many points is a leaf.
pub const MAX_POINTS_PER_NODE: usize = 1000;

/// A node whose side is shorter than this many ticks (a sixteenth of a unit)
/// is a leaf, however many points it holds.
pub const MIN_OCTREE_NODE_SIZE: i64 = 64;

/// The octant of `p` around `mid`: bit 0, 1 and 2 are set when `p` is at or
/// above `mid` along x, y and z.
pub open spec fn octant_spec(p: Vec3, mid: Vec3) -> int {
    (if p.x < mid.x { 0int } else { 1int }) + (if p.y < mid.y { 0int } else { 2int }) + (if p.z
        < mid.z {
        0int
    } else {
        4int
    })
}

/// The number of points of `s` in octant `k` around `mid`.
pub open spec fn count_octant(s: Seq<Vec3WithIndex>, mid: Vec3, k: int) -> nat
    decreases s.len(),
{
    if s.len() == 0 {
        0
    } else {
        count_octant(s.drop_last(), mid, k) + if octant_spec(s.last().vec, mid) == k {
            1nat
        } else {
            0nat
        }
    }
}

/// The number of points of `s` in the octants below `k`.
pub open spec fn sector_start(s: Seq<Vec3WithIndex>, mid: Vec3, k: int) -> int
    decreases k,
{
    if k <= 0 {
        0
    } else {
        sector_start(s, mid, k - 1) + count_octant(s, mid, k - 1)
    }
}

/// The end of the sector of octant `k`, given the starts of all eight.
pub open spec fn sector_end(splits: Seq<usize>, end: int, k: int) -> int {
    if k >= 7 {
        end
    } else {
        splits[k + 1] as int
    }
}

/// `splits` holds, for each octant, where its sector starts once the points
/// of `s[start..end]` are grouped by octant in increasing order.
pub open spec fn splits_spec(
    s: Seq<Vec3WithIndex>,
    start: int,
    end: int,
    mid: Vec3,
    splits: Seq<usize>,
) -> bool {
    &&& 0 <= start <= end <= s.len()
    &&& splits.len() == 8
    &&& forall|k: int|
        0 <= k < 8 ==> splits[k] == start + sector_start(s.subrange(start, end), mid, k)
}

/// Every point of `s` in the sector of octant `k` is in octant `k`.
pub open spec fn sector_sorted(s: Seq<Vec3WithIndex>, splits: Seq<usize>, end: int, mid: Vec3, k: int) -> bool {
    forall|i: int|
        splits[k] <= i < sector_end(splits, end, k) ==> octant_spec(#[trigger] s[i].vec, mid) == k
}

/// Every sector holds only points of its own octant.
pub open spec fn sectors_sorted(s: Seq<Vec3WithIndex>, splits: Seq<usize>, end: int, mid: Vec3) -> bool {
    forall|k: int| 0 <= k < 8 ==> #[trigger] sector_sorted(s, splits, end, mid, k)
}

proof fn lemma_count_push(s: Seq<Vec3WithIndex>, p: Vec3WithIndex, mid: Vec3, k: int)
    ensures
        count_octant(s.push(p), mid, k) == count_octant(s, mid, k) + if octant_spec(p.vec, mid)
            == k {
            1nat
        } else {
            0nat
        },
{
    assert(s.push(p).drop_last() =~= s);
}

proof fn lemma_count_le_len(s: Seq<Vec3WithIndex>, mid: Vec3, k: int)
    ensures
        count_octant(s, mid, k) <= s.len(),
    decreases s.len(),
{
    if s.len() > 0 {
        lemma_count_le_len(s.drop_last(), mid, k);
    }
}

/// Every point lies in exactly one of the eight octants.
proof fn lemma_count_total(s: Seq<Vec3WithIndex>, mid: Vec3)
    ensures
        sector_start(s, mid, 8) == s.len(),
    decreases s.len(),
{
    reveal_with_fuel(sector_start, 9);
    if s.len() > 0 {
        lemma_count_total(s.drop_last(), mid);
        assert(sector_start(s.drop_last(), mid, 8) == s.len() - 1);
    }
}

proof fn lemma_sector_start_mono(s: Seq<Vec3WithIndex>, mid: Vec3, a: int, b: int)
    requires
        0 <= a <= b,
    ensures
        sector_start(s, mid, a) <= sector_start(s, mid, b),
    decreases b,
{
    if a < b {
        lemma_sector_start_mono(s, mid, a, b - 1);
    }
}

/// What `splits_spec` says of the sectors: they are consecutive, in order,
/// and each is as long as its octant's count.
proof fn lemma_splits_facts(s: Seq<Vec3WithIndex>, start: int, end: int, mid: Vec3, splits: Seq<usize>)
    requires
        splits_spec(s, start, end, mid, splits),
    ensures
        splits[0] == start,
        forall|k: int|
            0 <= k < 8 ==> sector_end(splits, end, k) - splits[k] == count_octant(
                #[trigger] s.subrange(start, end),
                mid,
                k,
            ),
        forall|a: int, b: int|
            #![trigger sector_end(splits, end, a), splits[b]]
            0 <= a < b < 8 ==> sector_end(splits, end, a) <= splits[b],
        forall|k: int| 0 <= k < 8 ==> #[trigger] splits[k] <= sector_end(splits, end, k) <= end,
{
    let sub = s.subrange(start, end);
    lemma_count_total(sub, mid);
    assert forall|a: int, b: int|
        #![trigger sector_end(splits, end, a), splits[b]]
        0 <= a < b < 8 implies sector_end(splits, end, a) <= splits[b] by {
        if a < 7 {
            lemma_sector_start_mono(sub, mid, a + 1, b);
        }
    }
    assert forall|k: int| 0 <= k < 8 implies #[trigger] splits[k] <= sector_end(splits, end, k) <= end by {
        lemma_sector_start_mono(sub, mid, k + 1, 8);
    }
}

proof fn lemma_count_update(s: Seq<Vec3WithIndex>, i: int, v: Vec3WithIndex, mid: Vec3, k: int)
    requires
        0 <= i < s.len(),
    ensures
        count_octant(s.update(i, v), mid, k) + (if octant_spec(s[i].vec, mid) == k {
            1int
        } else {
            0int
        }) == count_octant(s, mid, k) + (if octant_spec(v.vec, mid) == k {
            1int
        } else {
            0int
        }),
    decreases s.len(),
{
    if i == s.len() - 1 {
        assert(s.update(i, v).drop_last() =~= s.drop_last());
    } else {
        assert(s.update(i, v).drop_last() =~= s.drop_last().update(i, v));
        lemma_count_update(s.drop_last(), i, v, mid, k);
    }
}

proof fn lemma_count_range(s: Seq<Vec3WithIndex>, lo: int, hi: int, mid: Vec3, k: int)
    requires
        0 <= lo <= hi <= s.len(),
        forall|i: int| lo <= i < hi ==> octant_spec(s[i].vec, mid) == k,
    ensures
        count_octant(s, mid, k) >= hi - lo,
    decreases s.len(),
{
    if lo < hi {
        if hi == s.len() {
            lemma_count_range(s.drop_last(), lo, hi - 1, mid, k);
        } else {
            lemma_count_range(s.drop_last(), lo, hi, mid, k);
        }
    }
}

proof fn lemma_count_lower(s: Seq<Vec3WithIndex>, lo: int, hi: int, j: int, mid: Vec3, k: int)
    requires
        0 <= lo <= hi <= s.len(),
        forall|i: int| lo <= i < hi ==> octant_spec(s[i].vec, mid) == k,
        0 <= j < s.len(),
        !(lo <= j < hi),
        octant_spec(s[j].vec, mid) == k,
    ensures
        count_octant(s, mid, k) >= hi - lo + 1,
    decreases s.len(),
{
    let n = s.len() - 1;
    if lo == hi {
        lemma_count_range(s, j, j + 1, mid, k);
    } else if j == n {
        if lo < hi {
            lemma_count_range(s.drop_last(), lo, hi, mid, k);
        }
    } else if lo <= n && n < hi {
        lemma_count_lower(s.drop_last(), lo, hi - 1, j, mid, k);
    } else {
        lemma_count_lower(s.drop_last(), lo, hi, j, mid, k);
    }
}

proof fn lemma_update_multiset(s: Seq<Vec3WithIndex>, i: int, v: Vec3WithIndex)
    requires
        0 <= i < s.len(),
    ensures
        s.update(i, v).to_multiset() =~= s.to_multiset().remove(s[i]).insert(v),
{
    broadcast use vstd::seq_lib::group_to_multiset_ensures;
    let t = s.update(i, v);
    assert(t.remove(i) =~= s.remove(i));
    assert(t[i] == v);
    assert(t.to_multiset().count(v) > 0);
    assert(t.to_multiset().remove(v).insert(v) =~= t.to_multiset());
}

/// Exchanging two elements keeps a sequence's multiset and octant counts.
proof fn lemma_swap(s: Seq<Vec3WithIndex>, i: int, j: int, mid: Vec3)
    requires
        0 <= i < s.len(),
        0 <= j < s.len(),
    ensures
        s.update(i, s[j]).update(j, s[i]).to_multiset() =~= s.to_multiset(),
        forall|k: int|
            count_octant(#[trigger] s.update(i, s[j]).update(j, s[i]), mid, k) == count_octant(
                s,
                mid,
                k,
            ),
{
    let t = s.update(i, s[j]);
    lemma_update_multiset(s, i, s[j]);
    lemma_update_multiset(t, j, s[i]);
    let m = s.to_multiset();
    broadcast use vstd::seq_lib::group_to_multiset_ensures;
    assert(m.count(s[i]) > 0);
    assert(m.remove(s[i]).insert(s[j]).remove(s[j]) =~= m.remove(s[i]));
    assert(m.remove(s[i]).insert(s[i]) =~= m);
    assert forall|k: int|
        count_octant(#[trigger] s.update(i, s[j]).update(j, s[i]), mid, k) == count_octant(
            s,
            mid,
            k,
        ) by {
        lemma_count_update(s, i, s[j], mid, k);
        lemma_count_update(t, j, s[i], mid, k);
    }
}

pub open spec fn middle_spec(b: BoundingBox) -> Vec3 {
    Vec3 {
        x: ((b.min.x + b.max.x) / 2) as i64,
        y: ((b.min.y + b.max.y) / 2) as i64,
        z: ((b.min.z + b.max.z) / 2) as i64,
    }
}

pub fn get_octree_child_index(point: &Vec3WithIndex, middle: &Vec3) -> (r: usize)
    ensures
        r == octant_spec(point.vec, *middle),
        r < 8,
{
    (if point.vec.x < middle.x { 0 } else { 1 }) + (if point.vec.y < middle.y { 0 } else { 2 })
        + (if point.vec.z < middle.z { 0 } else { 4 })
}

/// Counts the points of `points[start..end]` in each octant around `middle`
/// and returns where each octant's sector starts.
pub fn find_splits(points: &Vec<Vec3WithIndex>, start: usize, end: usize, middle: &Vec3) -> (r: Vec<usize>)
    requires
        start <= end <= points.len(),
    ensures
        splits_spec(points@, start as int, end as int, *middle, r@),
{
    let ghost sub = points@.subrange(start as int, end as int);
    let mut counts: Vec<usize> = vec![0, 0, 0, 0, 0, 0, 0, 0];
    let mut i: usize = start;
    while i < end
        invariant
            start <= i <= end <= points.len(),
            sub == points@.subrange(start as int, end as int),
            counts.len() == 8,
            forall|k: int|
                0 <= k < 8 ==> counts[k] == count_octant(
                    #[trigger] points@.subrange(start as int, i as int),
                    *middle,
                    k,
                ),
        decreases end - i,
    {
        let k = get_octree_child_index(&points[i], middle);
        proof {
            assert(points@.subrange(start as int, i + 1) =~= points@.subrange(start as int, i as int).push(points[i as int]));
            lemma_count_le_len(points@.subrange(start as int, i as int), *middle, k as int);
            assert forall|q: int| 0 <= q < 8 implies count_octant(
                #[trigger] points@.subrange(start as int, i + 1),
                *middle,
                q,
            ) == count_octant(points@.subrange(start as int, i as int), *middle, q) + if k == q { 1int } else { 0int } by {
                lemma_count_push(points@.subrange(start as int, i as int), points[i as int], *middle, q);
            }
        }
        let c = counts[k];
        counts.set(k, c + 1);
        i = i + 1;
    }
    assert(points@.subrange(start as int, end as int) =~= sub);
    proof {
        lemma_count_total(sub, *middle);
        assert forall|k: int| 0 <= k <= 8 implies sector_start(sub, *middle, k) <= sub.len() by {
            lemma_sector_start_mono(sub, *middle, k, 8);
        }
    }
    let mut splits: Vec<usize> = vec![start];
    let mut k: usize = 1;
    while k < 8
        invariant
            1 <= k <= 8,
            start <= end <= points.len(),
            sub == points@.subrange(start as int, end as int),
            sub.len() == end - start,
            counts.len() == 8,
            forall|q: int| 0 <= q < 8 ==> counts[q] == count_octant(sub, *middle, q),
            forall|q: int| 0 <= q <= 8 ==> sector_start(sub, *middle, q) <= sub.len(),
            splits.len() == k,
            forall|q: int| 0 <= q < k ==> splits[q] == start + sector_start(sub, *middle, q),
        decreases 8 - k,
    {
        let prev = splits[k - 1];
        assert(sector_start(sub, *middle, k as int) == sector_start(sub, *middle, k - 1)
            + count_octant(sub, *middle, k - 1));
        assert(sector_start(sub, *middle, k as int) <= sub.len());
        splits.push(prev + counts[k - 1]);
        k = k + 1;
    }
    splits
}

/// Room left in the eight sectors: how many slots are still to be filled.
pub open spec fn room_left(offsets: Seq<usize>, splits: Seq<usize>, end: int) -> int {
    (sector_end(splits, end, 0) - offsets[0]) + (sector_end(splits, end, 1) - offsets[1]) + (
    sector_end(splits, end, 2) - offsets[2]) + (sector_end(splits, end, 3) - offsets[3]) + (
    sector_end(splits, end, 4) - offsets[4]) + (sector_end(splits, end, 5) - offsets[5]) + (
    sector_end(splits, end, 6) - offsets[6]) + (sector_end(splits, end, 7) - offsets[7])
}

/// The slots `[splits[k], offsets[k])` of every sector hold points of its octant.
pub open spec fn filled_sorted(s: Seq<Vec3WithIndex>, splits: Seq<usize>, offsets: Seq<usize>, mid: Vec3) -> bool {
    forall|k: int, i: int|
        #![trigger offsets[k], s[i]]
        0 <= k < 8 && splits[k] <= i < offsets[k] ==> octant_spec(s[i].vec, mid) == k
}

/// Groups the points of `points[start..end]` by octant around `middle`, in
/// place: afterwards the sector of octant `k` (from `splits[k]` to the next
/// sector's start, or to `end`) holds exactly the points of that octant.
///
/// Each point is moved straight to the next free slot of its sector; the point
/// found there is carried on in the same way, until the chain comes back to the
/// slot it started from.
#[verifier::rlimit(40)]
#[verifier::spinoff_prover]
pub fn sort_points_into_sectors(
    points: &mut Vec<Vec3WithIndex>,
    start: usize,
    end: usize,
    splits: &Vec<usize>,
    middle: &Vec3,
)
    requires
        splits_spec(old(points)@, start as int, end as int, *middle, splits@),
    ensures
        final(points).len() == old(points).len(),
        forall|i: int|
            0 <= i < old(points).len() && !(start <= i < end) ==> final(points)[i] == old(
                points,
            )[i],
        final(points)@.subrange(start as int, end as int).to_multiset() =~= old(
            points,
        )@.subrange(start as int, end as int).to_multiset(),
        final(points)@.to_multiset() =~= old(points)@.to_multiset(),
        sectors_sorted(final(points)@, splits@, end as int, *middle),
{
    let ghost orig = points@;
    let ghost sub0 = orig.subrange(start as int, end as int);
    let ghost mid = *middle;
    proof {
        lemma_splits_facts(orig, start as int, end as int, mid, splits@);
    }
    let mut offsets: Vec<usize> = Vec::new();
    let mut q: usize = 0;
    while q < 8
        invariant
            q <= 8,
            splits.len() == 8,
            offsets.len() == q,
            forall|k: int| 0 <= k < q ==> offsets[k] == splits[k],
        decreases 8 - q,
    {
        offsets.push(splits[q]);
        q = q + 1;
    }
    let mut p: usize = 0;
    while p < 8
        invariant
            p <= 8,
            start <= end <= orig.len(),
            sub0 == orig.subrange(start as int, end as int),
            mid == *middle,
            splits.len() == 8,
            splits[0] == start,
            forall|k: int|
                0 <= k < 8 ==> sector_end(splits@, end as int, k) - splits[k] == count_octant(
                    sub0,
                    mid,
                    k,
                ),
            forall|a: int, b: int|
                #![trigger sector_end(splits@, end as int, a), splits[b]]
                0 <= a < b < 8 ==> sector_end(splits@, end as int, a) <= splits[b],
            forall|k: int|
                0 <= k < 8 ==> #[trigger] splits[k] <= sector_end(splits@, end as int, k) <= end,
            points.len() == orig.len(),
            forall|i: int| 0 <= i < orig.len() && !(start <= i < end) ==> points[i] == orig[i],
            points@.subrange(start as int, end as int).to_multiset() =~= sub0.to_multiset(),
            forall|k: int|
                0 <= k < 8 ==> count_octant(
                    #[trigger] points@.subrange(start as int, end as int),
                    mid,
                    k,
                ) == count_octant(sub0, mid, k),
            offsets.len() == 8,
            forall|k: int|
                0 <= k < 8 ==> splits[k] <= #[trigger] offsets[k] <= sector_end(
                    splits@,
                    end as int,
                    k,
                ),
            filled_sorted(points@, splits@, offsets@, mid),
            forall|k: int| 0 <= k < p ==> #[trigger] offsets[k] == sector_end(splits@, end as int, k),
        decreases 8 - p,
    {
        let sec_end = if p == 7 { end } else { splits[p + 1] };
        if offsets[p] < sec_end {
            let s: usize = sec_end - 1;
            let mut c = points[s];
            assert(points@.update(s as int, c) =~= points@);
            loop
                invariant_except_break
                    offsets[p as int] <= s,
                    points@.update(s as int, c).subrange(start as int, end as int).to_multiset()
                        =~= sub0.to_multiset(),
                    forall|k: int|
                        0 <= k < 8 ==> count_octant(
                            #[trigger] points@.update(s as int, c).subrange(start as int, end as int),
                            mid,
                            k,
                        ) == count_octant(sub0, mid, k),
                invariant
                    p < 8,
                    start <= end <= orig.len(),
                    sub0 == orig.subrange(start as int, end as int),
                    mid == *middle,
                    splits.len() == 8,
                    splits[0] == start,
                    forall|k: int|
                        0 <= k < 8 ==> sector_end(splits@, end as int, k) - splits[k]
                            == count_octant(sub0, mid, k),
                    forall|a: int, b: int|
                        #![trigger sector_end(splits@, end as int, a), splits[b]]
                        0 <= a < b < 8 ==> sector_end(splits@, end as int, a) <= splits[b],
                    forall|k: int|
                        0 <= k < 8 ==> #[trigger] splits[k] <= sector_end(splits@, end as int, k)
                            <= end,
                    s + 1 == sector_end(splits@, end as int, p as int),
                    points.len() == orig.len(),
                    forall|i: int|
                        0 <= i < orig.len() && !(start <= i < end) ==> points[i] == orig[i],
                    offsets.len() == 8,
                    forall|k: int|
                        0 <= k < 8 ==> splits[k] <= #[trigger] offsets[k] <= sector_end(
                            splits@,
                            end as int,
                            k,
                        ),
                    filled_sorted(points@, splits@, offsets@, mid),
                    forall|k: int|
                        0 <= k < p ==> #[trigger] offsets[k] == sector_end(splits@, end as int, k),
                ensures
                    offsets[p as int] == sector_end(splits@, end as int, p as int),
                    points@.subrange(start as int, end as int).to_multiset() =~= sub0.to_multiset(),
                    forall|k: int|
                        0 <= k < 8 ==> count_octant(
                            #[trigger] points@.subrange(start as int, end as int),
                            mid,
                            k,
                        ) == count_octant(sub0, mid, k),
                decreases room_left(offsets@, splits@, end as int),
            {
                let ghost x = points@.update(s as int, c);
                let ghost y = x.subrange(start as int, end as int);
                let k = get_octree_child_index(&c, middle);
                proof {
                    if offsets[k as int] == sector_end(splits@, end as int, k as int) {
                        let lo = splits[k as int] - start;
                        let hi = sector_end(splits@, end as int, k as int) - start;
                        assert forall|i: int| lo <= i < hi implies octant_spec(y[i].vec, mid) == k by {
                            assert(points@[i + start] == x[i + start]);
                            assert(offsets[k as int] == sector_end(splits@, end as int, k as int));
                        }
                        assert(y[s - start] == c);
                        assert(splits[p as int] <= s);
                        if k < p {
                            assert(sector_end(splits@, end as int, k as int) <= splits[p as int]);
                        } else if k > p {
                            assert(sector_end(splits@, end as int, p as int) <= splits[k as int]);
                        }
                        assert(count_octant(y, mid, k as int) == count_octant(sub0, mid, k as int));
                        lemma_count_lower(y, lo, hi, s - start, mid, k as int);
                        assert(false);
                    }
                }
                let j = offsets[k];
                let next = points[j];
                points.set(j, c);
                offsets.set(k, j + 1);
                c = next;
                proof {
                    if j != s {
                        let y2 = points@.update(s as int, c).subrange(start as int, end as int);
                        assert(y2 =~= y.update(j - start, y[s - start]).update(s - start, y[j - start]));
                        lemma_swap(y, j - start, s - start, mid);
                    } else {
                        assert(points@ =~= x);
                    }
                }
                if j == s {
                    break;
                }
            }
        }
        p = p + 1;
    }
    proof {
        assert(points@.subrange(start as int, end as int).to_multiset() =~= sub0.to_multiset());
        assert(points@ =~= points@.subrange(0, start as int) + points@.subrange(start as int, end as int) + points@.subrange(end as int, points.len() as int));
        assert(orig =~= orig.subrange(0, start as int) + sub0 + orig.subrange(end as int, orig.len() as int));
        assert(points@.subrange(0, start as int) =~= orig.subrange(0, start as int));
        assert(points@.subrange(end as int, points.len() as int) =~= orig.subrange(end as int, orig.len() as int));
        vstd::seq_lib::lemma_multiset_commutative(orig.subrange(0, start as int), sub0);
        vstd::seq_lib::lemma_multiset_commutative(orig.subrange(0, start as int) + sub0, orig.subrange(end as int, orig.len() as int));
        vstd::seq_lib::lemma_multiset_commutative(points@.subrange(0, start as int), points@.subrange(start as int, end as int));
        vstd::seq_lib::lemma_multiset_commutative(points@.subrange(0, start as int) + points@.subrange(start as int, end as int), points@.subrange(end as int, points.len() as int));
        assert forall|k: int| 0 <= k < 8 implies #[trigger] sector_sorted(points@, splits@, end as int, mid, k) by {
            assert forall|i: int| splits[k] <= i < sector_end(splits@, end as int, k) implies octant_spec(#[trigger] points@[i].vec, mid) == k by {
                assert(offsets[k] == sector_end(splits@, end as int, k));
            }
        }
    }
}

/// The box of octant `k` of `b`: the lower or the upper half along each axis,
/// as bit 0, 1 and 2 of `k` choose.
pub open spec fn child_box_spec(b: BoundingBox, k: int) -> BoundingBox {
    let mid = middle_spec(b);
    BoundingBox {
        min: Vec3 {
            x: if k % 2 == 0 { b.min.x } else { mid.x },
            y: if (k / 2) % 2 == 0 { b.min.y } else { mid.y },
            z: if (k / 4) % 2 == 0 { b.min.z } else { mid.z },
        },
        max: Vec3 {
            x: if k % 2 == 0 { mid.x } else { b.max.x },
            y: if (k / 2) % 2 == 0 { mid.y } else { b.max.y },
            z: if (k / 4) % 2 == 0 { mid.z } else { b.max.z },
        },
    }
}

proof fn lemma_child_box_contains(b: BoundingBox, p: Vec3, k: int)
    requires
        b.contains_spec(p),
        octant_spec(p, middle_spec(b)) == k,
    ensures
        child_box_spec(b, k).contains_spec(p),
{
}

fn middle_of(b: &BoundingBox) -> (r: Vec3)
    requires
        b.wf(),
    ensures
        r == middle_spec(*b),
{
    vec3(
        half_floor_exec(b.min.x + b.max.x),
        half_floor_exec(b.min.y + b.max.y),
        half_floor_exec(b.min.z + b.max.z),
    )
}

pub fn get_child_bounding_boxes(bounding_box: &BoundingBox) -> (r: Vec<BoundingBox>)
    requires
        bounding_box.wf(),
    ensures
        r.len() == 8,
        forall|k: int| 0 <= k < 8 ==> #[trigger] r[k] == child_box_spec(*bounding_box, k),
{
    let b = bounding_box;
    let middle = middle_of(b);
    let mut boxes: Vec<BoundingBox> = Vec::new();
    let mut i: usize = 0;
    while i < 8
        invariant
            i <= 8,
            middle == middle_spec(*b),
            boxes.len() == i,
            forall|k: int| 0 <= k < i ==> #[trigger] boxes[k] == child_box_spec(*b, k),
        decreases 8 - i,
    {
        let (min_x, max_x) = if i % 2 == 0 { (b.min.x, middle.x) } else { (middle.x, b.max.x) };
        let (min_y, max_y) = if (i / 2) % 2 == 0 { (b.min.y, middle.y) } else { (middle.y, b.max.y) };
        let (min_z, max_z) = if (i / 4) % 2 == 0 { (b.min.z, middle.z) } else { (middle.z, b.max.z) };
        boxes.push(BoundingBox { min: vec3(min_x, min_y, min_z), max: vec3(max_x, max_y, max_z) });
        i = i + 1;
    }
    boxes
}

/// A node of the octree, kept in an arena: it covers the points
/// `start..end` of the tree's point sequence. A leaf has no children; an
/// internal node has eight, indices of nodes built before it, whose ranges
/// follow each other from `start` to `end`.
pub struct OctreeNode {
    pub bounding_box: BoundingBox,
    pub start: usize,
    pub end: usize,
    pub children: Vec<usize>,
}

pub open spec fn side_x(b: BoundingBox) -> int {
    b.max.x - b.min.x
}

pub open spec fn children_wf(nodes: Seq<OctreeNode>, i: int) -> bool {
    let nd = nodes[i];
    let c = nd.children@;
    &&& c.len() == 8
    &&& forall|k: int| 0 <= k < 8 ==> #[trigger] c[k] < i
    &&& nodes[c[0] as int].start == nd.start
    &&& nodes[c[7] as int].end == nd.end
    &&& forall|k: int|
        0 <= k < 7 ==> #[trigger] nodes[c[k] as int].end == nodes[c[k + 1] as int].start
    &&& forall|k: int|
        0 <= k < 8 ==> #[trigger] nodes[c[k] as int].bounding_box == child_box_spec(
            nd.bounding_box,
            k,
        )
}

/// Node `i` covers a range of the `n` points, and is either a leaf small
/// enough to stop at, or an internal node too large to stop at whose
/// children hold its octants.
pub open spec fn node_wf(nodes: Seq<OctreeNode>, i: int, n: int) -> bool {
    let nd = nodes[i];
    &&& nd.start <= nd.end <= n
    &&& nd.children.len() == 0 ==> (nd.end - nd.start <= MAX_POINTS_PER_NODE || side_x(
        nd.bounding_box,
    ) < MIN_OCTREE_NODE_SIZE)
    &&& nd.children.len() != 0 ==> children_wf(nodes, i)
    &&& nd.children.len() != 0 ==> nd.end - nd.start > MAX_POINTS_PER_NODE && side_x(
        nd.bounding_box,
    ) >= MIN_OCTREE_NODE_SIZE
}

pub open spec fn nodes_wf(nodes: Seq<OctreeNode>, n: int) -> bool {
    forall|i: int| 0 <= i < nodes.len() ==> #[trigger] node_wf(nodes, i, n)
}

/// Every point of `pts[lo..hi]` lies in `b`.
pub open spec fn in_box(pts: Seq<Vec3WithIndex>, lo: int, hi: int, b: BoundingBox) -> bool {
    forall|pi: int| lo <= pi < hi ==> b.contains_spec(#[trigger] pts[pi].vec)
}

/// The box of node `i` holds every point of its range.
pub open spec fn node_tight(nodes: Seq<OctreeNode>, pts: Seq<Vec3WithIndex>, i: int) -> bool {
    in_box(pts, nodes[i].start as int, nodes[i].end as int, nodes[i].bounding_box)
}

proof fn lemma_multiset_frame(a: Seq<Vec3WithIndex>, b: Seq<Vec3WithIndex>, lo: int, hi: int, outer_lo: int, outer_hi: int)
    requires
        a.len() == b.len(),
        0 <= outer_lo <= lo <= hi <= outer_hi <= a.len(),
        forall|i: int| outer_lo <= i < outer_hi && !(lo <= i < hi) ==> a[i] == b[i],
        a.subrange(lo, hi).to_multiset() =~= b.subrange(lo, hi).to_multiset(),
    ensures
        a.subrange(outer_lo, outer_hi).to_multiset() =~= b.subrange(outer_lo, outer_hi).to_multiset(),
{
    let a1 = a.subrange(outer_lo, lo);
    let a2 = a.subrange(lo, hi);
    let a3 = a.subrange(hi, outer_hi);
    let b1 = b.subrange(outer_lo, lo);
    let b2 = b.subrange(lo, hi);
    let b3 = b.subrange(hi, outer_hi);
    assert(a1 =~= b1);
    assert(a3 =~= b3);
    assert(a.subrange(outer_lo, outer_hi) =~= a1 + a2 + a3);
    assert(b.subrange(outer_lo, outer_hi) =~= b1 + b2 + b3);
    vstd::seq_lib::lemma_multiset_commutative(a1, a2);
    vstd::seq_lib::lemma_multiset_commutative(a1 + a2, a3);
    vstd::seq_lib::lemma_multiset_commutative(b1, b2);
    vstd::seq_lib::lemma_multiset_commutative(b1 + b2, b3);
}

proof fn lemma_multiset_in_box(a: Seq<Vec3WithIndex>, b: Seq<Vec3WithIndex>, lo: int, hi: int, bx: BoundingBox)
    requires
        0 <= lo <= hi <= a.len(),
        hi <= b.len(),
        a.subrange(lo, hi).to_multiset() =~= b.subrange(lo, hi).to_multiset(),
        in_box(a, lo, hi, bx),
    ensures
        in_box(b, lo, hi, bx),
{
    broadcast use vstd::seq_lib::group_to_multiset_ensures;
    assert forall|pi: int| lo <= pi < hi implies bx.contains_spec(#[trigger] b[pi].vec) by {
        let sb = b.subrange(lo, hi);
        let sa = a.subrange(lo, hi);
        assert(sb[pi - lo] == b[pi]);
        assert(sb.contains(b[pi]));
        assert(sb.to_multiset().count(b[pi]) > 0);
        assert(sa.contains(b[pi]));
        let j = choose|j: int| 0 <= j < sa.len() && sa[j] == b[pi];
        assert(a[j + lo] == b[pi]);
    }
}

pub open spec fn splits_or_end(splits: Seq<usize>, end: int, k: int) -> int {
    if k >= 8 {
        end
    } else {
        splits[k] as int
    }
}

/// The ranges of nodes `from..to` lie within `lo..hi`.
pub open spec fn ranges_within(nodes: Seq<OctreeNode>, from: int, to: int, lo: int, hi: int) -> bool {
    forall|i: int| from <= i < to ==> lo <= #[trigger] nodes[i].start && nodes[i].end <= hi
}

proof fn lemma_ranges_extend(
    before: Seq<OctreeNode>,
    after: Seq<OctreeNode>,
    l0: int,
    lb: int,
    start: int,
    lo: int,
    hi: int,
)
    requires
        0 <= l0 <= lb <= before.len(),
        lb <= after.len(),
        forall|i: int| 0 <= i < lb ==> #[trigger] after[i] == before[i],
        ranges_within(before, l0, lb, start, lo),
        ranges_within(after, lb, after.len() as int, lo, hi),
        start <= lo <= hi,
    ensures
        ranges_within(after, l0, after.len() as int, start, hi),
{
    assert forall|i: int| l0 <= i < after.len() implies start <= #[trigger] after[i].start && after[i].end <= hi by {
        if i < lb {
            assert(after[i] == before[i]);
            assert(lo <= hi);
        } else {
            assert(lo <= after[i].start);
        }
    }
}

impl OctreeNode {
    /// Builds the subtree over `points[start..end]` with box `bounding_box`,
    /// grouping the points by octant in place, and appends its nodes to
    /// `nodes`, children before parents. Returns the index of its root.
    #[verifier::rlimit(100)]
    #[verifier::spinoff_prover]
    pub fn new(
        bounding_box: BoundingBox,
        points: &mut Vec<Vec3WithIndex>,
        start: usize,
        end: usize,
        nodes: &mut Vec<OctreeNode>,
    ) -> (r: usize)
        requires
            bounding_box.wf(),
            start <= end <= old(points).len(),
            nodes_wf(old(nodes)@, old(points).len() as int),
        ensures
            old(nodes).len() < final(nodes).len(),
            r == final(nodes).len() - 1,
            forall|i: int| 0 <= i < old(nodes).len() ==> #[trigger] final(nodes)@[i] == old(nodes)@[i],
            nodes_wf(final(nodes)@, old(points).len() as int),
            forall|i: int|
                old(nodes).len() <= i < final(nodes).len() ==> start <= #[trigger] final(nodes)@[i].start
                    && final(nodes)@[i].end <= end,
            final(nodes)@[r as int].start == start,
            final(nodes)@[r as int].end == end,
            final(nodes)@[r as int].bounding_box == bounding_box,
            final(points).len() == old(points).len(),
            forall|i: int|
                0 <= i < old(points).len() && !(start <= i < end) ==> final(points)[i] == old(
                    points,
                )[i],
            final(points)@.subrange(start as int, end as int).to_multiset() =~= old(
                points,
            )@.subrange(start as int, end as int).to_multiset(),
            in_box(old(points)@, start as int, end as int, bounding_box) ==> forall|i: int|
                old(nodes).len() <= i < final(nodes).len() ==> #[trigger] node_tight(
                    final(nodes)@,
                    final(points)@,
                    i,
                ),
        decreases bounding_box.max.x - bounding_box.min.x,
    {
        let ghost n = points.len() as int;
        let ghost l0 = nodes.len() as int;
        let ghost pts0 = points@;
        if end - start <= MAX_POINTS_PER_NODE || bounding_box.max.x - bounding_box.min.x
            < MIN_OCTREE_NODE_SIZE {
            nodes.push(OctreeNode { bounding_box, start, end, children: Vec::new() });
            proof {
                assert(node_wf(nodes@, l0, n));
                assert forall|i: int| 0 <= i < nodes.len() implies #[trigger] node_wf(nodes@, i, n) by {
                    if i < l0 {
                        assert(node_wf(old(nodes)@, i, n));
                    }
                }
            }
            return nodes.len() - 1;
        }
        let middle = middle_of(&bounding_box);
        let splits = find_splits(points, start, end, &middle);
        sort_points_into_sectors(points, start, end, &splits, &middle);
        let ghost sorted = points@;
        proof {
            lemma_splits_facts(pts0, start as int, end as int, middle, splits@);
            if in_box(pts0, start as int, end as int, bounding_box) {
                lemma_multiset_in_box(pts0, sorted, start as int, end as int, bounding_box);
            }
        }
        let boxes = get_child_bounding_boxes(&bounding_box);
        let mut children: Vec<usize> = Vec::new();
        let mut k: usize = 0;
        while k < 8
            invariant
                k <= 8,
                bounding_box.wf(),
                side_x(bounding_box) >= MIN_OCTREE_NODE_SIZE,
                start <= end <= n,
                n == old(points).len(),
                pts0 == old(points)@,
                l0 == old(nodes).len(),
                middle == middle_spec(bounding_box),
                splits.len() == 8,
                splits[0] == start,
                forall|a: int, b: int|
                    #![trigger sector_end(splits@, end as int, a), splits[b]]
                    0 <= a < b < 8 ==> sector_end(splits@, end as int, a) <= splits[b],
                forall|q: int|
                    0 <= q < 8 ==> #[trigger] splits[q] <= sector_end(splits@, end as int, q) <= end,
                sectors_sorted(sorted, splits@, end as int, middle),
                sorted.len() == n,
                in_box(pts0, start as int, end as int, bounding_box) ==> in_box(sorted, start as int, end as int, bounding_box),
                boxes.len() == 8,
                forall|q: int| 0 <= q < 8 ==> #[trigger] boxes[q] == child_box_spec(bounding_box, q),
                children.len() == k,
                forall|j: int| 0 <= j < k ==> #[trigger] children[j] < nodes.len(),
                forall|j: int| 0 <= j < k ==> l0 <= #[trigger] children[j],
                forall|j: int|
                    0 <= j < k ==> nodes@[#[trigger] children[j] as int].start == splits[j]
                        && nodes@[children[j] as int].end == sector_end(splits@, end as int, j)
                        && nodes@[children[j] as int].bounding_box == boxes[j],
                l0 <= nodes.len(),
                forall|i: int| 0 <= i < l0 ==> #[trigger] nodes@[i] == old(nodes)@[i],
                nodes_wf(nodes@, n),
                ranges_within(nodes@, l0, nodes.len() as int, start as int, splits_or_end(splits@, end as int, k as int)),
                points.len() == n,
                forall|i: int| 0 <= i < n && !(start <= i < end) ==> points[i] == pts0[i],
                forall|i: int|
                    splits_or_end(splits@, end as int, k as int) <= i < end ==> points[i] == sorted[i],
                points@.subrange(start as int, end as int).to_multiset() =~= pts0.subrange(
                    start as int,
                    end as int,
                ).to_multiset(),
                in_box(pts0, start as int, end as int, bounding_box) ==> forall|i: int|
                    l0 <= i < nodes.len() ==> #[trigger] node_tight(nodes@, points@, i),
            decreases 8 - k,
        {
            let lo = splits[k];
            let hi = if k == 7 { end } else { splits[k + 1] };
            let ghost before = points@;
            let ghost lb = nodes.len() as int;
            let ghost nodes_before = nodes@;
            proof {
                assert(hi == sector_end(splits@, end as int, k as int));
                if k > 0 {
                    assert(sector_end(splits@, end as int, 0) <= splits[k as int]);
                }
                assert(start <= lo);
                assert(boxes[k as int].wf());
                if in_box(pts0, start as int, end as int, bounding_box) {
                    assert forall|pi: int| lo <= pi < hi implies boxes[k as int].contains_spec(#[trigger] before[pi].vec) by {
                        assert(sector_sorted(sorted, splits@, end as int, middle, k as int));
                        assert(before[pi] == sorted[pi]);
                        lemma_child_box_contains(bounding_box, sorted[pi].vec, k as int);
                    }
                }
            }
            let c = OctreeNode::new(boxes[k], points, lo, hi, nodes);
            assert(ranges_within(nodes@, lb, nodes.len() as int, lo as int, hi as int));
            assert(forall|i: int| 0 <= i < lb ==> #[trigger] nodes@[i] == nodes_before[i]);
            proof {
                lemma_multiset_frame(before, points@, lo as int, hi as int, start as int, end as int);
                if in_box(pts0, start as int, end as int, bounding_box) {
                    assert forall|i: int| l0 <= i < nodes.len() implies #[trigger] node_tight(nodes@, points@, i) by {
                        if i < lb {
                            assert(node_tight(nodes_before, before, i));
                            assert(nodes@[i] == nodes_before[i]);
                            assert(nodes@[i].end <= lo);
                            assert forall|pi: int| nodes@[i].start <= pi < nodes@[i].end implies nodes@[i].bounding_box.contains_spec(#[trigger] points@[pi].vec) by {
                                assert(points@[pi] == before[pi]);
                                assert(nodes_before[i].bounding_box.contains_spec(before[pi].vec));
                            }
                        }
                    }
                }
                if k < 7 {
                    assert(splits_or_end(splits@, end as int, k + 1) == hi);
                }
                assert(splits_or_end(splits@, end as int, k as int) == lo);
                assert(lo <= hi);
                let ghost next_bound = splits_or_end(splits@, end as int, k + 1);
                assert(next_bound == hi);
                lemma_ranges_extend(nodes_before, nodes@, l0, lb, start as int, lo as int, hi as int);
                assert(ranges_within(nodes@, l0, nodes.len() as int, start as int, next_bound));
            }
            children.push(c);
            k = k + 1;
        }
        let ghost built = nodes@;
        let ghost p_idx = nodes.len() as int;
        nodes.push(OctreeNode { bounding_box, start, end, children });
        proof {
            assert(ranges_within(built, l0, p_idx, start as int, end as int));
            assert forall|i: int| l0 <= i < nodes.len() implies start <= #[trigger] nodes@[i].start && nodes@[i].end <= end by {
                if i < p_idx {
                    assert(nodes@[i] == built[i]);
                    assert(start <= built[i].start && built[i].end <= end);
                }
            }
            assert(children_wf(nodes@, p_idx)) by {
                assert forall|q: int| 0 <= q < 8 implies #[trigger] nodes@[nodes@[p_idx].children@[q] as int].bounding_box == child_box_spec(bounding_box, q) by {
                    assert(nodes@[p_idx].children@[q] == children[q]);
                }
                assert forall|q: int| 0 <= q < 7 implies #[trigger] nodes@[nodes@[p_idx].children@[q] as int].end == nodes@[nodes@[p_idx].children@[q + 1] as int].start by {
                    assert(sector_end(splits@, end as int, q) == splits[q + 1]);
                }
            }
            assert forall|i: int| 0 <= i < nodes.len() implies #[trigger] node_wf(nodes@, i, n) by {
                if i < p_idx {
                    assert(node_wf(built, i, n));
                }
            }
            if in_box(pts0, start as int, end as int, bounding_box) {
                lemma_multiset_in_box(pts0, points@, start as int, end as int, bounding_box);
                assert forall|i: int| l0 <= i < nodes.len() implies #[trigger] node_tight(nodes@, points@, i) by {
                    if i < p_idx {
                        assert(node_tight(built, points@, i));
                    }
                }
            }
        }
        nodes.len() - 1
    }
}

/// The point at position `pi` is reached by a query with box `b` from node
/// `i`: `i` is a leaf whose range holds `pi`, or one of its children that
/// overlaps `b` reaches it.
pub open spec fn reaches(nodes: Seq<OctreeNode>, i: int, b: BoundingBox, pi: int) -> bool
    decreases i, 9int,
{
    if 0 <= i < nodes.len() {
        if nodes[i].children.len() == 0 {
            nodes[i].start <= pi < nodes[i].end
        } else {
            reaches_child(nodes, i, b, pi, 8)
        }
    } else {
        false
    }
}

/// One of the first `k` children of node `i` overlaps `b` and reaches `pi`.
pub open spec fn reaches_child(nodes: Seq<OctreeNode>, i: int, b: BoundingBox, pi: int, k: int) -> bool
    decreases i, k,
{
    if k <= 0 || !(0 <= i < nodes.len()) {
        false
    } else {
        let c = nodes[i].children@[k - 1] as int;
        reaches_child(nodes, i, b, pi, k - 1) || (0 <= c < i && overlap_spec(
            nodes[c].bounding_box,
            b,
        ) && reaches(nodes, c, b, pi))
    }
}

/// Some point with external index `e` that `shape` contains is reached from
/// node `i` by a query with box `b`.
pub open spec fn marks(
    pts: Seq<Vec3WithIndex>,
    nodes: Seq<OctreeNode>,
    i: int,
    b: BoundingBox,
    shape: Shape,
    e: int,
) -> bool {
    exists|pi: int|
        0 <= pi < pts.len() && #[trigger] pts[pi].index == e && shape.contains_spec(pts[pi].vec)
            && reaches(nodes, i, b, pi)
}

/// The ids after writing `id` at every external index that a query marks.
pub open spec fn ids_after_query(
    ids: Seq<u16>,
    pts: Seq<Vec3WithIndex>,
    nodes: Seq<OctreeNode>,
    i: int,
    b: BoundingBox,
    shape: Shape,
) -> Seq<u16> {
    Seq::new(
        ids.len(),
        |e: int|
            if marks(pts, nodes, i, b, shape, e) {
                shape.object_id_spec()
            } else {
                ids[e]
            },
    )
}

/// An octree over its own copy of the points, grouped by octant.
pub struct PointOctree {
    pub points: Vec<Vec3WithIndex>,
    pub nodes: Vec<OctreeNode>,
    pub root: usize,
}

impl PointOctree {
    pub open spec fn wf(self) -> bool {
        &&& nodes_wf(self.nodes@, self.points.len() as int)
        &&& self.root < self.nodes.len()
        &&& self.nodes@[self.root as int].start == 0
        &&& self.nodes@[self.root as int].end == self.points.len()
        &&& forall|pi: int| 0 <= pi < self.points.len() ==> (#[trigger] self.points@[pi]).vec.wf()
    }

    /// Every node's box holds the points of its range.
    pub open spec fn tight(self) -> bool {
        forall|i: int| 0 <= i < self.nodes.len() ==> #[trigger] node_tight(self.nodes@, self.points@, i)
    }

    /// Every point's external index is a position in `ids`.
    pub open spec fn indices_below(self, len: int) -> bool {
        forall|pi: int| 0 <= pi < self.points.len() ==> (#[trigger] self.points@[pi]).index < len
    }
}

impl OctreeNode {
    /// Writes the shape's object id at the external index of every point that
    /// the shape contains, among the points of this node (node `index` of
    /// `octree`) that a query with box `bounding_box` reaches.
    pub fn assign_object_ids(
        &self,
        index: usize,
        octree: &PointOctree,
        bounding_box: &BoundingBox,
        shape: &Shape,
        object_ids: &mut Vec<u16>,
    )
        requires
            octree.wf(),
            index < octree.nodes.len(),
            octree.nodes@[index as int] == *self,
            shape.wf(),
            octree.indices_below(old(object_ids).len() as int),
        ensures
            final(object_ids)@ == ids_after_query(
                old(object_ids)@,
                octree.points@,
                octree.nodes@,
                index as int,
                *bounding_box,
                *shape,
            ),
        decreases index,
    {
        let ghost ids0 = object_ids@;
        let ghost pts = octree.points@;
        let ghost nodes = octree.nodes@;
        let ghost id = shape.object_id_spec();
        assert(node_wf(nodes, index as int, pts.len() as int));
        if self.children.len() == 0 {
            let object_id = shape.get_object_id();
            let mut pi: usize = self.start;
            while pi < self.end
                invariant
                    octree.wf(),
                    index < octree.nodes.len(),
                    octree.nodes@[index as int] == *self,
                    self.children.len() == 0,
                    node_wf(nodes, index as int, pts.len() as int),
                    shape.wf(),
                    octree.indices_below(ids0.len() as int),
                    pts == octree.points@,
                    nodes == octree.nodes@,
                    object_id == id,
                    self.start <= pi <= self.end,
                    object_ids.len() == ids0.len(),
                    forall|e: int|
                        0 <= e < ids0.len() ==> #[trigger] object_ids@[e] == if exists|q: int|
                            self.start <= q < pi && #[trigger] pts[q].index == e
                                && shape.contains_spec(pts[q].vec) {
                            id
                        } else {
                            ids0[e]
                        },
                decreases self.end - pi,
            {
                let point = &octree.points[pi];
                if shape.contains_point(&point.vec) {
                    object_ids.set(point.index as usize, object_id);
                }
                proof {
                    assert forall|e: int| 0 <= e < ids0.len() implies #[trigger] object_ids@[e] == if exists|q: int|
                        self.start <= q < pi + 1 && #[trigger] pts[q].index == e
                            && shape.contains_spec(pts[q].vec) {
                        id
                    } else {
                        ids0[e]
                    } by {
                        if exists|q: int| self.start <= q < pi + 1 && #[trigger] pts[q].index == e && shape.contains_spec(pts[q].vec) {
                            let q = choose|q: int| self.start <= q < pi + 1 && #[trigger] pts[q].index == e && shape.contains_spec(pts[q].vec);
                            if q < pi {
                            } else {
                            }
                        } else {
                            assert(!(pts[pi as int].index == e && shape.contains_spec(pts[pi as int].vec)));
                        }
                    }
                }
                pi = pi + 1;
            }
            proof {
                assert forall|e: int| 0 <= e < ids0.len() implies #[trigger] object_ids@[e] == ids_after_query(ids0, pts, nodes, index as int, *bounding_box, *shape)[e] by {
                    if marks(pts, nodes, index as int, *bounding_box, *shape, e) {
                        let q = choose|q: int| 0 <= q < pts.len() && #[trigger] pts[q].index == e && shape.contains_spec(pts[q].vec) && reaches(nodes, index as int, *bounding_box, q);
                        assert(self.start <= q < self.end);
                    } else {
                        if exists|q: int| self.start <= q < self.end && #[trigger] pts[q].index == e && shape.contains_spec(pts[q].vec) {
                            let q = choose|q: int| self.start <= q < self.end && #[trigger] pts[q].index == e && shape.contains_spec(pts[q].vec);
                            assert(reaches(nodes, index as int, *bounding_box, q));
                        }
                    }
                }
                assert(object_ids@ =~= ids_after_query(ids0, pts, nodes, index as int, *bounding_box, *shape));
            }
        } else {
            let mut k: usize = 0;
            while k < 8
                invariant
                    octree.wf(),
                    index < octree.nodes.len(),
                    octree.nodes@[index as int] == *self,
                    children_wf(nodes, index as int),
                    id == shape.object_id_spec(),
                    shape.wf(),
                    octree.indices_below(ids0.len() as int),
                    pts == octree.points@,
                    nodes == octree.nodes@,
                    k <= 8,
                    object_ids.len() == ids0.len(),
                    forall|e: int|
                        0 <= e < ids0.len() ==> #[trigger] object_ids@[e] == if exists|q: int|
                            0 <= q < pts.len() && #[trigger] pts[q].index == e
                                && shape.contains_spec(pts[q].vec)
                                && reaches_child(nodes, index as int, *bounding_box, q, k as int) {
                            id
                        } else {
                            ids0[e]
                        },
                decreases 8 - k,
            {
                let c = self.children[k];
                let ghost before = object_ids@;
                let child = &octree.nodes[c];
                let hit = crate::linalg::boxes_overlap(&child.bounding_box, bounding_box);
                if hit {
                    child.assign_object_ids(c, octree, bounding_box, shape, object_ids);
                }
                assert(hit ==> object_ids@ == ids_after_query(before, pts, nodes, c as int, *bounding_box, *shape));
                proof {
                    assert(c < index);
                    assert forall|e: int| 0 <= e < ids0.len() implies #[trigger] object_ids@[e] == if exists|q: int|
                        0 <= q < pts.len() && #[trigger] pts[q].index == e
                            && shape.contains_spec(pts[q].vec)
                            && reaches_child(nodes, index as int, *bounding_box, q, k + 1) {
                        id
                    } else {
                        ids0[e]
                    } by {
                        if hit {
                            assert(object_ids@[e] == ids_after_query(before, pts, nodes, c as int, *bounding_box, *shape)[e]);
                            assert(object_ids@[e] == if marks(pts, nodes, c as int, *bounding_box, *shape, e) { id } else { before[e] });
                        } else {
                            assert(object_ids@[e] == before[e]);
                        }
                        assert(forall|q: int| #[trigger] reaches_child(nodes, index as int, *bounding_box, q, k + 1) == (reaches_child(nodes, index as int, *bounding_box, q, k as int) || (0 <= c < index && overlap_spec(nodes[c as int].bounding_box, *bounding_box) && reaches(nodes, c as int, *bounding_box, q))));
                        assert(before[e] == if exists|q: int|
                            0 <= q < pts.len() && #[trigger] pts[q].index == e
                                && shape.contains_spec(pts[q].vec)
                                && reaches_child(nodes, index as int, *bounding_box, q, k as int) {
                            id
                        } else {
                            ids0[e]
                        });
                        if exists|q: int| 0 <= q < pts.len() && #[trigger] pts[q].index == e && shape.contains_spec(pts[q].vec) && reaches_child(nodes, index as int, *bounding_box, q, k + 1) {
                            let q = choose|q: int| 0 <= q < pts.len() && #[trigger] pts[q].index == e && shape.contains_spec(pts[q].vec) && reaches_child(nodes, index as int, *bounding_box, q, k + 1);
                            if !reaches_child(nodes, index as int, *bounding_box, q, k as int) {
                                assert(hit);
                                assert(marks(pts, nodes, c as int, *bounding_box, *shape, e));
                            }
                        } else {
                            if hit && marks(pts, nodes, c as int, *bounding_box, *shape, e) {
                                let q = choose|q: int| 0 <= q < pts.len() && #[trigger] pts[q].index == e && shape.contains_spec(pts[q].vec) && reaches(nodes, c as int, *bounding_box, q);
                                assert(reaches_child(nodes, index as int, *bounding_box, q, k + 1));
                            }
                            if exists|q: int| 0 <= q < pts.len() && #[trigger] pts[q].index == e && shape.contains_spec(pts[q].vec) && reaches_child(nodes, index as int, *bounding_box, q, k as int) {
                                let q = choose|q: int| 0 <= q < pts.len() && #[trigger] pts[q].index == e && shape.contains_spec(pts[q].vec) && reaches_child(nodes, index as int, *bounding_box, q, k as int);
                                assert(reaches_child(nodes, index as int, *bounding_box, q, k + 1));
                            }
                        }
                    }
                }
                k = k + 1;
            }
            proof {
                assert(object_ids@ =~= ids_after_query(ids0, pts, nodes, index as int, *bounding_box, *shape));
            }
        }
    }
}

pub(crate) proof fn lemma_multiset_member(a: Seq<Vec3WithIndex>, b: Seq<Vec3WithIndex>, pi: int) -> (j: int)
    requires
        a.to_multiset() =~= b.to_multiset(),
        0 <= pi < b.len(),
    ensures
        0 <= j < a.len(),
        a[j] == b[pi],
{
    broadcast use vstd::seq_lib::group_to_multiset_ensures;
    assert(b.contains(b[pi]));
    assert(a.to_multiset().count(b[pi]) > 0);
    choose|j: int| 0 <= j < a.len() && a[j] == b[pi]
}

/// Results of the query on the whole tree for the shape's own box.
pub open spec fn assign_spec(octree: PointOctree, shape: Shape, ids: Seq<u16>) -> Seq<u16> {
    ids_after_query(
        ids,
        octree.points@,
        octree.nodes@,
        octree.root as int,
        shape.bounding_box_spec(),
        shape,
    )
}

/// `p` lies strictly inside `b`, off its faces.
pub open spec fn strictly_inside(b: BoundingBox, p: Vec3) -> bool {
    b.min.x < p.x < b.max.x && b.min.y < p.y < b.max.y && b.min.z < p.z < b.max.z
}

/// Every point that the shape contains lies strictly inside the shape's box.
pub open spec fn box_bounds_shape(shape: Shape, p: Vec3) -> bool {
    shape.contains_spec(p) ==> strictly_inside(shape.bounding_box_spec(), p)
}

impl PointOctree {
    /// Builds the octree over `points` with the root box `bounding_box`.
    /// Points outside the box are kept too: they go to the octant that the
    /// comparisons with each box's middle pick.
    pub fn new(bounding_box: BoundingBox, points: Vec<Vec3WithIndex>) -> (r: PointOctree)
        requires
            bounding_box.wf(),
            forall|pi: int| 0 <= pi < points.len() ==> (#[trigger] points@[pi]).vec.wf(),
        ensures
            r.wf(),
            r.points.len() == points.len(),
            r.points@.to_multiset() =~= points@.to_multiset(),
            r.nodes@[r.root as int].bounding_box == bounding_box,
            in_box(points@, 0, points.len() as int, bounding_box) ==> r.tight(),
    {
        let mut pts = points;
        let ghost pts0 = pts@;
        let mut nodes: Vec<OctreeNode> = Vec::new();
        let n = pts.len();
        let root = OctreeNode::new(bounding_box, &mut pts, 0, n, &mut nodes);
        proof {
            assert(pts0.subrange(0, n as int) =~= pts0);
            assert(pts@.subrange(0, n as int) =~= pts@);
            assert forall|pi: int| 0 <= pi < pts.len() implies (#[trigger] pts@[pi]).vec.wf() by {
                let j = lemma_multiset_member(pts0, pts@, pi);
            }
        }
        PointOctree { points: pts, nodes, root }
    }

    /// Writes the shape's object id at the external index of every point of
    /// the tree that the shape contains and that a query with the shape's box
    /// reaches; other entries are left as they are.
    pub fn assign(&self, shape: &Shape, object_ids: &mut Vec<u16>)
        requires
            self.wf(),
            shape.wf(),
            self.indices_below(old(object_ids).len() as int),
        ensures
            final(object_ids)@ == assign_spec(*self, *shape, old(object_ids)@),
    {
        let bounding_box = shape.create_bounding_box();
        let root = &self.nodes[self.root];
        root.assign_object_ids(self.root, self, &bounding_box, shape, object_ids);
    }
}

proof fn lemma_reaches_child_mono(nodes: Seq<OctreeNode>, i: int, b: BoundingBox, pi: int, k: int, m: int)
    requires
        0 <= k < m,
        reaches_child(nodes, i, b, pi, k + 1),
    ensures
        reaches_child(nodes, i, b, pi, m),
    decreases m,
{
    if m > k + 1 {
        lemma_reaches_child_mono(nodes, i, b, pi, k, m - 1);
    }
}

/// Some child of an internal node covers each point of the node's range.
proof fn lemma_child_covers(nodes: Seq<OctreeNode>, i: int, n: int, pi: int, k: int) -> (r: int)
    requires
        0 <= i < nodes.len(),
        children_wf(nodes, i),
        0 <= k < 8,
        nodes[nodes[i].children@[k] as int].start <= pi < nodes[i].end,
    ensures
        k <= r < 8,
        nodes[nodes[i].children@[r] as int].start <= pi < nodes[nodes[i].children@[r] as int].end,
    decreases 8 - k,
{
    let c = nodes[i].children@;
    if pi < nodes[c[k] as int].end || k == 7 {
        k
    } else {
        assert(nodes[c[k] as int].end == nodes[c[k + 1] as int].start);
        lemma_child_covers(nodes, i, n, pi, k + 1)
    }
}

/// In a well-formed tree whose boxes hold their points, a query with a box
/// that holds `pts[pi]` strictly inside reaches `pi` from every node whose
/// range holds it.
proof fn lemma_reaches_inside(nodes: Seq<OctreeNode>, pts: Seq<Vec3WithIndex>, i: int, b: BoundingBox, pi: int)
    requires
        nodes_wf(nodes, pts.len() as int),
        forall|j: int| 0 <= j < nodes.len() ==> #[trigger] node_tight(nodes, pts, j),
        0 <= i < nodes.len(),
        nodes[i].start <= pi < nodes[i].end,
        strictly_inside(b, pts[pi].vec),
    ensures
        reaches(nodes, i, b, pi),
    decreases i,
{
    assert(node_wf(nodes, i, pts.len() as int));
    if nodes[i].children.len() != 0 {
        let k = lemma_child_covers(nodes, i, pts.len() as int, pi, 0);
        let c = nodes[i].children@[k] as int;
        assert(c < i);
        assert(node_tight(nodes, pts, c));
        assert(nodes[c].bounding_box.contains_spec(pts[pi].vec));
        lemma_reaches_inside(nodes, pts, c, b, pi);
        assert(reaches_child(nodes, i, b, pi, k + 1));
        lemma_reaches_child_mono(nodes, i, b, pi, k, 8);
    }
}

/// Pruning by box overlap loses no point: when the root box holds every
/// point and the shape's box holds every point the shape contains strictly
/// inside, the query marks an external index exactly when the shape
/// contains a point with that index.
pub proof fn lemma_query_matches_containment(octree: PointOctree, shape: Shape, ids: Seq<u16>, e: int)
    requires
        octree.wf(),
        octree.tight(),
        forall|pi: int|
            0 <= pi < octree.points.len() ==> box_bounds_shape(shape, #[trigger] octree.points@[pi].vec),
        0 <= e < ids.len(),
    ensures
        assign_spec(octree, shape, ids)[e] == if exists|pi: int|
            0 <= pi < octree.points.len() && #[trigger] octree.points@[pi].index == e
                && shape.contains_spec(octree.points@[pi].vec) {
            shape.object_id_spec()
        } else {
            ids[e]
        },
{
    let pts = octree.points@;
    let nodes = octree.nodes@;
    let b = shape.bounding_box_spec();
    if exists|pi: int| 0 <= pi < pts.len() && #[trigger] pts[pi].index == e && shape.contains_spec(pts[pi].vec) {
        let pi = choose|pi: int| 0 <= pi < pts.len() && #[trigger] pts[pi].index == e && shape.contains_spec(pts[pi].vec);
        assert(box_bounds_shape(shape, pts[pi].vec));
        lemma_reaches_inside(nodes, pts, octree.root as int, b, pi);
        assert(marks(pts, nodes, octree.root as int, b, shape, e));
    }
}

/// Running the query for the same shape twice gives what running it once gives.
pub proof fn lemma_assign_idempotent(octree: PointOctree, shape: Shape, ids: Seq<u16>)
    ensures
        assign_spec(octree, shape, assign_spec(octree, shape, ids)) == assign_spec(octree, shape, ids),
{
    assert(assign_spec(octree, shape, assign_spec(octree, shape, ids)) =~= assign_spec(octree, shape, ids));
}

/// Of two shapes queried one after the other, the later one's id stands at
/// the index of a point that both contain.
pub proof fn lemma_later_shape_wins(octree: PointOctree, first: Shape, second: Shape, ids: Seq<u16>, pi: int)
    requires
        octree.wf(),
        octree.tight(),
        forall|q: int|
            0 <= q < octree.points.len() ==> box_bounds_shape(second, #[trigger] octree.points@[q].vec),
        octree.indices_below(ids.len() as int),
        0 <= pi < octree.points.len(),
        first.contains_spec(octree.points@[pi].vec),
        second.contains_spec(octree.points@[pi].vec),
    ensures
        assign_spec(octree, second, assign_spec(octree, first, ids))[octree.points@[pi].index as int]
            == second.object_id_spec(),
{
    let e = octree.points@[pi].index as int;
    let mid = assign_spec(octree, first, ids);
    lemma_query_matches_containment(octree, second, mid, e);
}

} // verus!
