use vstd::prelude::*;
use crate::geometry::{Aabb, Axis};
use crate::select::{is_kth, ksmallest, lemma_kth_unique};

verus! {

// Split values are kept as twice the plane's coordinate, so that the center of
// any box with integer corners is itself an integer.

/// The box reaches the plane `2 * x[a] == v` from below (or touches it).
pub open spec fn goes_left(b: Aabb, a: Axis, v: int) -> bool {
    2 * b.min.at(a) <= v
}

/// The box reaches the plane `2 * x[a] == v` from above (or touches it).
pub open spec fn goes_right(b: Aabb, a: Axis, v: int) -> bool {
    2 * b.max.at(a) >= v
}

pub open spec fn count_left(bs: Seq<Aabb>, a: Axis, v: int) -> nat
    decreases bs.len(),
{
    if bs.len() == 0 {
        0
    } else {
        count_left(bs.drop_last(), a, v) + if goes_left(bs.last(), a, v) { 1nat } else { 0nat }
    }
}

pub open spec fn count_right(bs: Seq<Aabb>, a: Axis, v: int) -> nat
    decreases bs.len(),
{
    if bs.len() == 0 {
        0
    } else {
        count_right(bs.drop_last(), a, v) + if goes_right(bs.last(), a, v) { 1nat } else { 0nat }
    }
}

/// How unbalanced the split of `bs` by the plane is: the size of the larger
/// side, a straddling box counting on both.
pub open spec fn score(bs: Seq<Aabb>, a: Axis, v: int) -> nat {
    let l = count_left(bs, a, v);
    let r = count_right(bs, a, v);
    if l >= r { l } else { r }
}

/// Twice the centers of the boxes along `a`.
pub open spec fn centers(bs: Seq<Aabb>, a: Axis) -> Seq<i64> {
    Seq::new(bs.len(), |i: int| bs[i].center2(a) as i64)
}

/// `v` is the median (the element of rank `len / 2`) of the doubled centers.
pub open spec fn is_median(bs: Seq<Aabb>, a: Axis, v: int) -> bool {
    is_kth(centers(bs, a), (bs.len() / 2) as int, v)
}

pub open spec fn axis_rank(a: Axis) -> int {
    match a {
        Axis::X => 0,
        Axis::Y => 1,
        Axis::Z => 2,
    }
}

/// `(a, v)` is the plane that the heuristic picks for `bs`: the median plane of
/// the axis with the lowest score, the first such axis on a tie.
pub open spec fn is_best_split(bs: Seq<Aabb>, a: Axis, v: int) -> bool {
    &&& is_median(bs, a, v)
    &&& forall|b: Axis, w: int| #[trigger] is_median(bs, b, w) ==> score(bs, a, v) <= score(bs, b, w)
    &&& forall|b: Axis, w: int|
        #[trigger] is_median(bs, b, w) && axis_rank(b) < axis_rank(a) ==> score(bs, a, v) < score(bs, b, w)
}

/// The heuristic's plane is unique.
pub proof fn lemma_best_split_unique(bs: Seq<Aabb>, a: Axis, v: int, b: Axis, w: int)
    requires
        is_best_split(bs, a, v),
        is_best_split(bs, b, w),
    ensures
        a == b && v == w,
{
    assert(is_median(bs, a, v) && is_median(bs, b, w));
    if a == b {
        lemma_kth_unique(centers(bs, a), (bs.len() / 2) as int, v, w);
    }
}

/// Tells on which sides of the plane `2 * x[axis] == c` the box lies: the first
/// flag for the lower side, the second for the upper; both when it straddles.
pub fn partition_bbox(bbox: &Aabb, axis: Axis, c: i64) -> (r: (bool, bool))
    ensures
        r.0 == goes_left(*bbox, axis, c as int),
        r.1 == goes_right(*bbox, axis, c as int),
{
    (2 * (bbox.min.get(axis) as i64) <= c, 2 * (bbox.max.get(axis) as i64) >= c)
}

/// The score of the plane `2 * x[axis] == value` over `bboxes`.
pub fn partition_score(bboxes: &Vec<Aabb>, axis: Axis, value: i64) -> (r: usize)
    ensures
        r as int == score(bboxes@, axis, value as int),
{
    let mut lefties: usize = 0;
    let mut rightists: usize = 0;
    let mut i: usize = 0;
    while i < bboxes.len()
        invariant
            i <= bboxes.len(),
            lefties <= i,
            rightists <= i,
            lefties == count_left(bboxes@.take(i as int), axis, value as int),
            rightists == count_right(bboxes@.take(i as int), axis, value as int),
        decreases bboxes.len() - i,
    {
        assert(bboxes@.take(i + 1).drop_last() =~= bboxes@.take(i as int));
        let (l, r) = partition_bbox(&bboxes[i], axis, value);
        if l {
            lefties = lefties + 1;
        }
        if r {
            rightists = rightists + 1;
        }
        i = i + 1;
    }
    assert(bboxes@.take(i as int) =~= bboxes@);
    if lefties >= rightists {
        lefties
    } else {
        rightists
    }
}

/// The median plane along `axis` and its score.
fn median_split(bboxes: &Vec<Aabb>, axis: Axis) -> (r: (i64, usize))
    requires
        bboxes.len() > 0,
    ensures
        is_median(bboxes@, axis, r.0 as int),
        r.1 as int == score(bboxes@, axis, r.0 as int),
{
    let mut centers_v: Vec<i64> = Vec::new();
    let mut i: usize = 0;
    while i < bboxes.len()
        invariant
            i <= bboxes.len(),
            centers_v@ =~= centers(bboxes@, axis).take(i as int),
        decreases bboxes.len() - i,
    {
        centers_v.push(bboxes[i].center2_exec(axis));
        i = i + 1;
    }
    assert(centers_v@ =~= centers(bboxes@, axis));
    let v = ksmallest(centers_v, bboxes.len() / 2);
    (v, partition_score(bboxes, axis, v))
}

/// Picks the split axis and the (doubled) split value for `bboxes`: on each
/// axis the median of the doubled centers, and of those the one whose larger
/// side is smallest.
pub fn best_partitioning(bboxes: &Vec<Aabb>) -> (r: (Axis, i64))
    requires
        bboxes.len() > 0,
    ensures
        is_best_split(bboxes@, r.0, r.1 as int),
{
    let (vx, sx) = median_split(bboxes, Axis::X);
    let (vy, sy) = median_split(bboxes, Axis::Y);
    let (vz, sz) = median_split(bboxes, Axis::Z);
    let mut best = (Axis::X, vx, sx);
    if sy < best.2 {
        best = (Axis::Y, vy, sy);
    }
    if sz < best.2 {
        best = (Axis::Z, vz, sz);
    }
    proof {
        let bs = bboxes@;
        assert forall|b: Axis, w: int| #[trigger] is_median(bs, b, w) implies score(bs, best.0, best.1 as int)
            <= score(bs, b, w) && (axis_rank(b) < axis_rank(best.0) ==> score(bs, best.0, best.1 as int)
            < score(bs, b, w)) by {
            let k = bs.len() / 2;
            match b {
                Axis::X => lemma_kth_unique(centers(bs, b), k as int, w, vx as int),
                Axis::Y => lemma_kth_unique(centers(bs, b), k as int, w, vy as int),
                Axis::Z => lemma_kth_unique(centers(bs, b), k as int, w, vz as int),
            }
        }
    }
    (best.0, best.1)
}

} // verus!
