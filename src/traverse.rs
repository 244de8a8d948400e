use vstd::prelude::*;
use crate::geometry::{lemma_le_trans, Aabb, Axis, Param, Ray};
use crate::kdtree::{boxes_of, split_bounded, Node};
use crate::partition::{goes_left, goes_right};
use crate::shape::Shape;

verus! {

/// `t` lies in the interval from `lo` to `hi`, both ends included; no `hi`
/// leaves the interval unbounded above.
pub open spec fn in_range(t: Param, lo: Param, hi: Option<Param>) -> bool {
    lo.le(t) && (hi.is_some() ==> t.le(hi.unwrap()))
}

/// Shape `j` is hit by `ray` within the interval.
pub open spec fn candidate<T: Shape>(shapes: Seq<T>, ray: Ray, lo: Param, hi: Option<Param>, j: int) -> bool {
    &&& 0 <= j < shapes.len()
    &&& shapes[j].hit_spec(ray).is_some()
    &&& in_range(shapes[j].hit_spec(ray).unwrap(), lo, hi)
}

/// The nearest hit in the interval among the shapes `data`, the first one on a tie.
pub open spec fn leaf_best<T: Shape>(
    data: Seq<usize>,
    shapes: Seq<T>,
    ray: Ray,
    lo: Param,
    hi: Option<Param>,
) -> Option<(usize, Param)>
    decreases data.len(),
{
    if data.len() == 0 {
        None
    } else {
        let prev = leaf_best(data.drop_last(), shapes, ray, lo, hi);
        let i = data.last();
        if candidate(shapes, ray, lo, hi, i as int) && (prev.is_none()
            || shapes[i as int].hit_spec(ray).unwrap().lt(prev.unwrap().1)) {
            Some((i, shapes[i as int].hit_spec(ray).unwrap()))
        } else {
            prev
        }
    }
}

/// The ray meets the lower side of the plane `2 * x[a] == v` first: its origin
/// lies below the plane, or on it while heading down or along it.
pub open spec fn left_first(ray: Ray, a: Axis, v: int) -> bool {
    2 * ray.origin.at(a) < v || (2 * ray.origin.at(a) == v && ray.dir.at(a) <= 0)
}

/// The parameter at which the ray crosses the plane `2 * x[a] == v`, for a
/// nonzero direction along `a`, with a positive denominator.
pub open spec fn split_param(ray: Ray, a: Axis, v: int) -> Param {
    let o = ray.origin.at(a);
    let d = ray.dir.at(a);
    if d > 0 {
        Param { num: (v - 2 * o) as i64, den: (2 * d) as i64 }
    } else {
        Param { num: (2 * o - v) as i64, den: (-2 * d) as i64 }
    }
}

impl Node {
    /// What a query of this subtree over the interval returns: an index into
    /// `shapes` and the parameter of its hit.
    pub open spec fn query<T: Shape>(self, shapes: Seq<T>, ray: Ray, lo: Param, hi: Option<Param>) -> Option<(usize, Param)>
        decreases self,
    {
        match self {
            Node::Leaf { data } => leaf_best(data@, shapes, ray, lo, hi),
            Node::Branch { left, right, split_value, split_axis } => {
                let v = split_value as int;
                let lf = left_first(ray, split_axis, v);
                let ts = split_param(ray, split_axis, v);
                if ray.dir.at(split_axis) == 0 || (hi.is_some() && hi.unwrap().lt(ts)) || ts.num <= 0 {
                    if lf { left.query(shapes, ray, lo, hi) } else { right.query(shapes, ray, lo, hi) }
                } else if ts.lt(lo) {
                    if lf { right.query(shapes, ray, lo, hi) } else { left.query(shapes, ray, lo, hi) }
                } else {
                    let near = if lf { left.query(shapes, ray, lo, Some(ts)) } else { right.query(shapes, ray, lo, Some(ts)) };
                    if near.is_some() {
                        near
                    } else if lf {
                        right.query(shapes, ray, ts, hi)
                    } else {
                        left.query(shapes, ray, ts, hi)
                    }
                }
            },
        }
    }

    /// Finds the nearest hit within the interval among the shapes of this
    /// subtree, visiting the children front to back.
    pub fn intersection<T: Shape>(&self, shapes: &Vec<T>, ray: &Ray, tmin: Param, tmax: Option<Param>) -> (r: Option<(usize, Param)>)
        requires
            self.wf(shapes.len() as nat),
        ensures
            r == self.query(shapes@, *ray, tmin, tmax),
            tmin.valid() && tmin.num >= 0 && (tmax.is_some() ==> tmax.unwrap().valid()) ==> is_nearest(
                r,
                *self,
                shapes@,
                *ray,
                tmin,
                tmax,
            ),
        decreases self,
    {
        proof {
            if tmin.valid() && tmin.num >= 0 && (tmax.is_some() ==> tmax.unwrap().valid()) {
                lemma_query_nearest(*self, shapes@, *ray, tmin, tmax);
            }
        }
        match self {
            Node::Leaf { data } => {
                let mut best: Option<(usize, Param)> = None;
                let mut k: usize = 0;
                while k < data.len()
                    invariant
                        k <= data.len(),
                        forall|m: int| 0 <= m < data.len() ==> #[trigger] data@[m] < shapes.len(),
                        best == leaf_best(data@.take(k as int), shapes@, *ray, tmin, tmax),
                    decreases data.len() - k,
                {
                    assert(data@.take(k + 1).drop_last() =~= data@.take(k as int));
                    let i = data[k];
                    let h = shapes[i].intersection(ray);
                    if let Some(t) = h {
                        let inside = tmin.le_exec(&t) && match tmax {
                            Some(hi) => t.le_exec(&hi),
                            None => true,
                        };
                        if inside {
                            let better = match best {
                                None => true,
                                Some(b) => t.lt_exec(&b.1),
                            };
                            if better {
                                best = Some((i, t));
                            }
                        }
                    }
                    k = k + 1;
                }
                assert(data@.take(k as int) =~= data@);
                best
            },
            Node::Branch { left, right, split_value, split_axis } => {
                let o = ray.origin.get(*split_axis) as i64;
                let d = ray.dir.get(*split_axis) as i64;
                let v = *split_value;
                let lf = 2 * o < v || (2 * o == v && d <= 0);
                if d == 0 {
                    return if lf {
                        left.intersection(shapes, ray, tmin, tmax)
                    } else {
                        right.intersection(shapes, ray, tmin, tmax)
                    };
                }
                let ts = if d > 0 {
                    Param { num: v - 2 * o, den: 2 * d }
                } else {
                    Param { num: 2 * o - v, den: -(2 * d) }
                };
                let beyond = match tmax {
                    Some(hi) => hi.lt_exec(&ts),
                    None => false,
                };
                if beyond || ts.num <= 0 {
                    return if lf {
                        left.intersection(shapes, ray, tmin, tmax)
                    } else {
                        right.intersection(shapes, ray, tmin, tmax)
                    };
                }
                if ts.lt_exec(&tmin) {
                    return if lf {
                        right.intersection(shapes, ray, tmin, tmax)
                    } else {
                        left.intersection(shapes, ray, tmin, tmax)
                    };
                }
                let near = if lf {
                    left.intersection(shapes, ray, tmin, Some(ts))
                } else {
                    right.intersection(shapes, ray, tmin, Some(ts))
                };
                if near.is_some() {
                    near
                } else if lf {
                    right.intersection(shapes, ray, ts, tmax)
                } else {
                    left.intersection(shapes, ray, ts, tmax)
                }
            },
        }
    }
}

/// `res` is a nearest hit within the interval among the shapes that `node`
/// holds: none of them is hit there when `res` is empty.
pub open spec fn is_nearest<T: Shape>(
    res: Option<(usize, Param)>,
    node: Node,
    shapes: Seq<T>,
    ray: Ray,
    lo: Param,
    hi: Option<Param>,
) -> bool {
    match res {
        Some((i, t)) => {
            &&& candidate(shapes, ray, lo, hi, i as int)
            &&& shapes[i as int].hit_spec(ray) == Some(t)
            &&& forall|j: int|
                #[trigger] candidate(shapes, ray, lo, hi, j) && node.holds(j, boxes_of(shapes)) ==> t.le(
                    shapes[j].hit_spec(ray).unwrap(),
                )
        },
        None => forall|j: int|
            #[trigger] candidate(shapes, ray, lo, hi, j) ==> !node.holds(j, boxes_of(shapes)),
    }
}

proof fn lemma_num_nonneg(lo: Param, t: Param)
    requires
        lo.valid(),
        t.valid(),
        lo.num >= 0,
        lo.le(t),
    ensures
        t.num >= 0,
{
    let (ln, ld, tn, td) = (lo.num as int, lo.den as int, t.num as int, t.den as int);
    assert(tn >= 0) by (nonlinear_arith)
        requires
            ln * td <= tn * ld,
            ln >= 0,
            td > 0,
            ld > 0,
    ;
}

proof fn lemma_leaf_best<T: Shape>(data: Seq<usize>, shapes: Seq<T>, ray: Ray, lo: Param, hi: Option<Param>)
    ensures
        match leaf_best(data, shapes, ray, lo, hi) {
            Some((i, t)) => {
                &&& candidate(shapes, ray, lo, hi, i as int)
                &&& shapes[i as int].hit_spec(ray) == Some(t)
                &&& forall|m: int|
                    0 <= m < data.len() && #[trigger] candidate(shapes, ray, lo, hi, data[m] as int)
                        ==> t.le(shapes[data[m] as int].hit_spec(ray).unwrap())
            },
            None => forall|m: int|
                0 <= m < data.len() ==> !#[trigger] candidate(shapes, ray, lo, hi, data[m] as int),
        },
    decreases data.len(),
{
    if data.len() > 0 {
        let pre = data.drop_last();
        lemma_leaf_best(pre, shapes, ray, lo, hi);
        let prev = leaf_best(pre, shapes, ray, lo, hi);
        let i = data.last();
        assert forall|m: int| 0 <= m < data.len() - 1 implies data[m] == pre[m] by {}
        if candidate(shapes, ray, lo, hi, i as int) {
            shapes[i as int].lemma_hit_in_bbox(ray);
        }
        if let Some((pi, pt)) = prev {
            shapes[pi as int].lemma_hit_in_bbox(ray);
            if candidate(shapes, ray, lo, hi, i as int) && shapes[i as int].hit_spec(ray).unwrap().lt(pt) {
                let t = shapes[i as int].hit_spec(ray).unwrap();
                assert forall|m: int|
                    0 <= m < data.len() && #[trigger] candidate(shapes, ray, lo, hi, data[m] as int)
                        implies t.le(shapes[data[m] as int].hit_spec(ray).unwrap()) by {
                    if m < data.len() - 1 {
                        assert(candidate(shapes, ray, lo, hi, pre[m] as int));
                        shapes[data[m] as int].lemma_hit_in_bbox(ray);
                        lemma_le_trans(t, pt, shapes[data[m] as int].hit_spec(ray).unwrap());
                    }
                }
            } else {
                assert forall|m: int|
                    0 <= m < data.len() && #[trigger] candidate(shapes, ray, lo, hi, data[m] as int)
                        implies pt.le(shapes[data[m] as int].hit_spec(ray).unwrap()) by {
                    if m < data.len() - 1 {
                        assert(candidate(shapes, ray, lo, hi, pre[m] as int));
                    }
                }
            }
        } else {
            assert forall|m: int| 0 <= m < data.len() - 1 implies !#[trigger] candidate(
                shapes,
                ray,
                lo,
                hi,
                data[m] as int,
            ) by {
                assert(!candidate(shapes, ray, lo, hi, pre[m] as int));
            }
        }
    }
}

/// A query of a subtree returns the nearest hit within the interval among the
/// shapes that the subtree holds, provided the interval starts at the ray's
/// origin or beyond it.
pub proof fn lemma_query_nearest<T: Shape>(node: Node, shapes: Seq<T>, ray: Ray, lo: Param, hi: Option<Param>)
    requires
        node.wf(shapes.len()),
        shapes.len() <= usize::MAX,
        lo.valid(),
        lo.num >= 0,
        hi.is_some() ==> hi.unwrap().valid(),
    ensures
        is_nearest(node.query(shapes, ray, lo, hi), node, shapes, ray, lo, hi),
    decreases node,
{
    let all = boxes_of(shapes);
    match node {
        Node::Leaf { data } => {
            lemma_leaf_best(data@, shapes, ray, lo, hi);
            let res = leaf_best(data@, shapes, ray, lo, hi);
            assert forall|j: int| #[trigger] candidate(shapes, ray, lo, hi, j) && node.holds(j, all) implies (
            match res {
                Some((i, t)) => t.le(shapes[j].hit_spec(ray).unwrap()),
                None => false,
            }) by {
                assert(j as usize as int == j);
                let m = choose|m: int| 0 <= m < data.len() && data@[m] == j as usize;
                assert(candidate(shapes, ray, lo, hi, data@[m] as int));
            }
        },
        Node::Branch { left, right, split_value, split_axis } => {
            let a = split_axis;
            let v = split_value as int;
            let lf = left_first(ray, a, v);
            let ts = split_param(ray, a, v);
            let d = ray.dir.at(a);
            let (first, second) = if lf { (*left, *right) } else { (*right, *left) };
            lemma_query_nearest(*left, shapes, ray, lo, hi);
            lemma_query_nearest(*right, shapes, ray, lo, hi);
            // where shape `j`, hit at a parameter of the interval, must be held
            assert forall|j: int| #[trigger] candidate(shapes, ray, lo, hi, j) && node.holds(j, all) implies {
                let tj = shapes[j].hit_spec(ray).unwrap();
                &&& (d == 0 || ts.num <= 0 || tj.le(ts)) ==> first.holds(j, all)
                &&& (d != 0 && ts.num > 0 && ts.le(tj)) ==> second.holds(j, all)
            } by {
                let tj = shapes[j].hit_spec(ray).unwrap();
                shapes[j].lemma_hit_in_bbox(ray);
                lemma_num_nonneg(lo, tj);
                assert(all[j] == shapes[j].bbox_spec());
                lemma_plane_side(ray, a, v, all[j], tj);
            }
            if d != 0 {
                assert(ts.valid());
            }
            if d == 0 || (hi.is_some() && hi.unwrap().lt(ts)) || ts.num <= 0 {
                let res = first.query(shapes, ray, lo, hi);
                assert(node.query(shapes, ray, lo, hi) == res);
                assert forall|j: int| #[trigger] candidate(shapes, ray, lo, hi, j) && node.holds(j, all) implies first.holds(j, all) && candidate(shapes, ray, lo, hi, j) by {
                    let tj = shapes[j].hit_spec(ray).unwrap();
                    if d != 0 && ts.num > 0 {
                        shapes[j].lemma_hit_in_bbox(ray);
                        lemma_le_trans(tj, hi.unwrap(), ts);
                    }
                }
            } else if ts.lt(lo) {
                let res = second.query(shapes, ray, lo, hi);
                assert(node.query(shapes, ray, lo, hi) == res);
                assert forall|j: int| #[trigger] candidate(shapes, ray, lo, hi, j) && node.holds(j, all) implies second.holds(j, all) by {
                    let tj = shapes[j].hit_spec(ray).unwrap();
                    shapes[j].lemma_hit_in_bbox(ray);
                    lemma_le_trans(ts, lo, tj);
                }
            } else {
                lemma_query_nearest(*left, shapes, ray, lo, Some(ts));
                lemma_query_nearest(*right, shapes, ray, ts, hi);
                lemma_query_nearest(*left, shapes, ray, ts, hi);
                lemma_query_nearest(*right, shapes, ray, lo, Some(ts));
                let near = first.query(shapes, ray, lo, Some(ts));
                let far = second.query(shapes, ray, ts, hi);
                assert(node.query(shapes, ray, lo, hi) == if near.is_some() { near } else { far });
                if let Some((i, t)) = near {
                    assert(candidate(shapes, ray, lo, Some(ts), i as int));
                    shapes[i as int].lemma_hit_in_bbox(ray);
                    if hi.is_some() {
                        lemma_le_trans(t, ts, hi.unwrap());
                    }
                    assert forall|j: int| #[trigger] candidate(shapes, ray, lo, hi, j) && node.holds(j, all) implies t.le(shapes[j].hit_spec(ray).unwrap()) by {
                        let tj = shapes[j].hit_spec(ray).unwrap();
                        shapes[j].lemma_hit_in_bbox(ray);
                        if tj.le(ts) {
                            assert(candidate(shapes, ray, lo, Some(ts), j));
                        } else {
                            lemma_le_trans(t, ts, tj);
                        }
                    }
                } else {
                    assert forall|j: int| #[trigger] candidate(shapes, ray, lo, hi, j) && node.holds(j, all) implies second.holds(j, all) && candidate(shapes, ray, ts, hi, j) by {
                        let tj = shapes[j].hit_spec(ray).unwrap();
                        shapes[j].lemma_hit_in_bbox(ray);
                        if tj.le(ts) {
                            assert(candidate(shapes, ray, lo, Some(ts), j));
                        }
                    }
                    if let Some((i, t)) = far {
                        assert(candidate(shapes, ray, ts, hi, i as int));
                        shapes[i as int].lemma_hit_in_bbox(ray);
                        lemma_le_trans(lo, ts, t);
                    }
                }
            }
        },
    }
}

/// Which side of the plane `2 * x[a] == v` a box holding the point at `t`
/// touches: the side met first while the ray has not passed the plane (or
/// never passes it), the other once it has.
proof fn lemma_plane_side(ray: Ray, a: Axis, v: int, b: Aabb, t: Param)
    requires
        split_bounded(v),
        t.valid(),
        t.num >= 0,
        b.holds_point(ray, t),
    ensures
        ({
            let ts = split_param(ray, a, v);
            let lf = left_first(ray, a, v);
            &&& (ray.dir.at(a) == 0 || ts.num <= 0) ==> (if lf { goes_left(b, a, v) } else { goes_right(b, a, v) })
            &&& (ray.dir.at(a) != 0 && ts.num > 0 && t.le(ts)) ==> (if lf { goes_left(b, a, v) } else { goes_right(b, a, v) })
            &&& (ray.dir.at(a) != 0 && ts.num > 0 && ts.le(t)) ==> (if lf { goes_right(b, a, v) } else { goes_left(b, a, v) })
        }),
{
    let o = ray.origin.at(a);
    let d = ray.dir.at(a);
    let num = t.num as int;
    let den = t.den as int;
    let sc = ray.scaled_at(t, a);
    let lo_c = b.min.at(a);
    let hi_c = b.max.at(a);
    assert(lo_c * den <= sc <= hi_c * den);
    assert(sc == o * den + num * d);
    let ts = split_param(ray, a, v);
    assert(-0x8000_0000 <= o < 0x8000_0000 && -0x8000_0000 <= d < 0x8000_0000);
    if d > 0 {
        assert(ts.num as int == v - 2 * o && ts.den as int == 2 * d);
    } else {
        assert(ts.num as int == 2 * o - v && ts.den as int == -2 * d);
    }
    // the point is on the lower side, or on the upper side
    assert(2 * sc <= v * den ==> 2 * lo_c <= v) by (nonlinear_arith)
        requires
            lo_c * den <= sc,
            den > 0,
    ;
    assert(2 * sc >= v * den ==> 2 * hi_c >= v) by (nonlinear_arith)
        requires
            sc <= hi_c * den,
            den > 0,
    ;
    assert(d == 0 ==> (2 * o <= v ==> 2 * sc <= v * den) && (2 * o >= v ==> 2 * sc >= v * den)) by (nonlinear_arith)
        requires
            sc == o * den + num * d,
            den > 0,
    ;
    assert(d > 0 && v - 2 * o <= 0 ==> 2 * sc >= v * den) by (nonlinear_arith)
        requires
            sc == o * den + num * d,
            den > 0,
            num >= 0,
    ;
    assert(d < 0 && 2 * o - v <= 0 ==> 2 * sc <= v * den) by (nonlinear_arith)
        requires
            sc == o * den + num * d,
            den > 0,
            num >= 0,
    ;
    assert(d > 0 ==> (num * (2 * d) <= (v - 2 * o) * den ==> 2 * sc <= v * den) && ((v - 2 * o) * den
        <= num * (2 * d) ==> 2 * sc >= v * den)) by (nonlinear_arith)
        requires
            sc == o * den + num * d,
    ;
    assert(d < 0 ==> (num * (-2 * d) <= (2 * o - v) * den ==> 2 * sc >= v * den) && ((2 * o - v) * den
        <= num * (-2 * d) ==> 2 * sc <= v * den)) by (nonlinear_arith)
        requires
            sc == o * den + num * d,
    ;
}

} // verus!
