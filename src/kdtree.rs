use vstd::prelude::*;
use crate::geometry::{Aabb, Axis, Param, Ray};
use crate::partition::{
    best_partitioning, centers, count_left, count_right, goes_left, goes_right, is_best_split, is_median,
    lemma_best_split_unique,
    partition_bbox, partition_score, score,
};
use crate::select::lemma_kth_within;
use crate::shape::Shape;
use crate::traverse::{candidate, lemma_query_nearest};

verus! {

/// The largest number of shapes a leaf holds, unless its shapes cannot be split.
pub const LEAF_SIZE: usize = 8;

/// A node of the tree. Shapes are named by their index in the tree's arena.
#[derive(Debug, PartialEq)]
pub enum Node {
    Leaf { data: Vec<usize> },
    /// The lower side of the plane `2 * x[split_axis] == split_value` goes to
    /// `left`, the upper side to `right`.
    Branch { left: Box<Node>, right: Box<Node>, split_value: i64, split_axis: Axis },
}

/// The bounding boxes of `shapes`, in order.
pub open spec fn boxes_of<T: Shape>(shapes: Seq<T>) -> Seq<Aabb> {
    Seq::new(shapes.len(), |j: int| shapes[j].bbox_spec())
}

/// Boxes that the heuristic cannot split: every median plane leaves all of
/// them on one side.
pub open spec fn unsplittable(bs: Seq<Aabb>) -> bool {
    forall|b: Axis, w: int| #[trigger] is_median(bs, b, w) ==> score(bs, b, w) >= bs.len()
}

/// `ids` and `bs` run side by side: each box is that of its shape in `all`.
pub open spec fn paired(ids: Seq<usize>, bs: Seq<Aabb>, all: Seq<Aabb>) -> bool {
    &&& ids.len() == bs.len()
    &&& forall|k: int| 0 <= k < ids.len() ==> #[trigger] ids[k] < all.len() && bs[k] == all[ids[k] as int]
}

/// Bound on a split value: twice a coordinate of 32 bits.
pub open spec fn split_bounded(v: int) -> bool {
    -0x1_0000_0000 <= v <= 0x1_0000_0000
}

impl Node {
    /// Shape `i`, whose box is `all[i]`, is in every leaf that a point of its box
    /// can reach: in both subtrees of a branch whose plane its box touches.
    pub open spec fn holds(self, i: int, all: Seq<Aabb>) -> bool
        decreases self,
    {
        match self {
            Node::Leaf { data } => data@.contains(i as usize),
            Node::Branch { left, right, split_value, split_axis } => {
                &&& (goes_left(all[i], split_axis, split_value as int) ==> left.holds(i, all))
                &&& (goes_right(all[i], split_axis, split_value as int) ==> right.holds(i, all))
            },
        }
    }

    /// Every leaf that the point with coordinates `p(a) / den` reaches from this
    /// node holds shape `i`; at a branch the point goes to each side of the plane
    /// that it lies on or touches.
    pub open spec fn routes_to(self, p: spec_fn(Axis) -> int, den: int, i: int) -> bool
        decreases self,
    {
        match self {
            Node::Leaf { data } => data@.contains(i as usize),
            Node::Branch { left, right, split_value, split_axis } => {
                &&& (2 * p(split_axis) <= split_value * den ==> left.routes_to(p, den, i))
                &&& (2 * p(split_axis) >= split_value * den ==> right.routes_to(p, den, i))
            },
        }
    }

    /// Every leaf names shapes below `n`, and every split value is bounded.
    pub open spec fn wf(self, n: nat) -> bool
        decreases self,
    {
        match self {
            Node::Leaf { data } => forall|k: int| 0 <= k < data.len() ==> #[trigger] data@[k] < n,
            Node::Branch { left, right, split_value, split_axis } => {
                &&& split_bounded(split_value as int)
                &&& left.wf(n)
                &&& right.wf(n)
            },
        }
    }

    /// Every leaf holds at most `LEAF_SIZE` shapes, or shapes whose boxes
    /// cannot be split.
    pub open spec fn leaves_small(self, all: Seq<Aabb>) -> bool
        decreases self,
    {
        match self {
            Node::Leaf { data } => data.len() <= LEAF_SIZE || unsplittable(
                data@.map_values(|i: usize| all[i as int]),
            ),
            Node::Branch { left, right, .. } => left.leaves_small(all) && right.leaves_small(all),
        }
    }

    /// The subtree as a mathematical value.
    pub open spec fn model(self) -> NodeModel
        decreases self,
    {
        match self {
            Node::Leaf { data } => NodeModel::Leaf { data: data@ },
            Node::Branch { left, right, split_value, split_axis } => NodeModel::Branch {
                left: Box::new(left.model()),
                right: Box::new(right.model()),
                split_value: split_value as int,
                split_axis,
            },
        }
    }

    /// Builds the subtree for the shapes `ids`, whose boxes are `bboxes`: the
    /// tree `built(ids, all)`.
    fn new(ids: Vec<usize>, bboxes: Vec<Aabb>, Ghost(all): Ghost<Seq<Aabb>>) -> (r: Node)
        requires
            paired(ids@, bboxes@, all),
        ensures
            r.model() == built(ids@, all),
            r.wf(all.len()),
            r.leaves_small(all),
            forall|k: int| 0 <= k < ids.len() ==> r.holds(#[trigger] ids@[k] as int, all),
        decreases ids.len(),
    {
        if ids.len() <= LEAF_SIZE {
            let r = Node::Leaf { data: ids };
            assert forall|k: int| 0 <= k < ids.len() implies r.holds(#[trigger] ids@[k] as int, all) by {
                assert(ids@[k] == ids@[k] as int as usize);
            }
            return r;
        }
        let (split_axis, split_value) = best_partitioning(&bboxes);
        let s = partition_score(&bboxes, split_axis, split_value);
        let ghost v = split_value as int;
        proof {
            assert(bboxes@ =~= boxes_at(ids@, all));
            let p = best_split_of(bboxes@);
            lemma_best_split_unique(bboxes@, p.0, p.1, split_axis, v);
            lemma_kept_len(ids@, bboxes@, all, split_axis, v);
        }
        if s >= ids.len() {
            let r = Node::Leaf { data: ids };
            assert forall|k: int| 0 <= k < ids.len() implies r.holds(#[trigger] ids@[k] as int, all) by {
                assert(ids@[k] == ids@[k] as int as usize);
            }
            return r;
        }
        proof {
            lemma_split_bounded(bboxes@, split_axis, v);
        }
        let ghost ids0 = ids@;
        let ghost bs0 = bboxes@;
        let ((left_ids, left_bbs), (right_ids, right_bbs)) = partition(
            ids,
            bboxes,
            split_axis,
            split_value,
            Ghost(all),
        );
        let left = Node::new(left_ids, left_bbs, Ghost(all));
        let right = Node::new(right_ids, right_bbs, Ghost(all));
        let r = Node::Branch { left: Box::new(left), right: Box::new(right), split_value, split_axis };
        proof {
            assert forall|k: int| 0 <= k < ids0.len() implies r.holds(#[trigger] ids0[k] as int, all) by {
                let i = ids0[k];
                assert(bs0[k] == all[i as int]);
                assert(ids0.contains(i));
                lemma_kept_contains(ids0, all, split_axis, v, true, i);
                lemma_kept_contains(ids0, all, split_axis, v, false, i);
                if goes_left(all[i as int], split_axis, v) {
                    let m = choose|m: int| 0 <= m < left_ids.len() && left_ids@[m] == i;
                    assert(left.holds(left_ids@[m] as int, all));
                }
                if goes_right(all[i as int], split_axis, v) {
                    let m = choose|m: int| 0 <= m < right_ids.len() && right_ids@[m] == i;
                    assert(right.holds(right_ids@[m] as int, all));
                }
            }
        }
        r
    }
}

/// A tree as a mathematical value.
pub enum NodeModel {
    Leaf { data: Seq<usize> },
    Branch { left: Box<NodeModel>, right: Box<NodeModel>, split_value: int, split_axis: Axis },
}

/// The shapes `0..n`, in order.
pub open spec fn indices(n: nat) -> Seq<usize> {
    Seq::new(n, |k: int| k as usize)
}

/// The boxes of the shapes `ids`.
pub open spec fn boxes_at(ids: Seq<usize>, all: Seq<Aabb>) -> Seq<Aabb> {
    ids.map_values(|i: usize| all[i as int])
}

/// The plane that the heuristic picks for `bs`.
pub open spec fn best_split_of(bs: Seq<Aabb>) -> (Axis, int) {
    choose|p: (Axis, int)| is_best_split(bs, p.0, p.1)
}

/// The tree built over the shapes `ids`, whose boxes are given by `all`: at
/// most `LEAF_SIZE` shapes make one leaf naming them in order; more are split
/// by the heuristic's plane into the shapes that reach it from below and those
/// that reach it from above, each side built in turn; and a set that some side
/// would keep whole stays one leaf.
pub open spec fn built(ids: Seq<usize>, all: Seq<Aabb>) -> NodeModel
    decreases ids.len(),
{
    if ids.len() <= LEAF_SIZE {
        NodeModel::Leaf { data: ids }
    } else {
        let (a, v) = best_split_of(boxes_at(ids, all));
        let l = kept(ids, all, a, v, true);
        let r = kept(ids, all, a, v, false);
        if l.len() < ids.len() && r.len() < ids.len() {
            NodeModel::Branch {
                left: Box::new(built(l, all)),
                right: Box::new(built(r, all)),
                split_value: v,
                split_axis: a,
            }
        } else {
            NodeModel::Leaf { data: ids }
        }
    }
}

impl NodeModel {
    /// Some leaf of the tree names shape `i`.
    pub open spec fn mentions(self, i: usize) -> bool
        decreases self,
    {
        match self {
            NodeModel::Leaf { data } => data.contains(i),
            NodeModel::Branch { left, right, .. } => left.mentions(i) || right.mentions(i),
        }
    }

    /// No leaf names a shape twice.
    pub open spec fn leaves_distinct(self) -> bool
        decreases self,
    {
        match self {
            NodeModel::Leaf { data } => data.no_duplicates(),
            NodeModel::Branch { left, right, .. } => left.leaves_distinct() && right.leaves_distinct(),
        }
    }

    /// Below each branch, the lower child names only shapes whose box reaches
    /// the plane from below, and the upper child only those reaching it from above.
    pub open spec fn sides_sound(self, all: Seq<Aabb>) -> bool
        decreases self,
    {
        match self {
            NodeModel::Leaf { .. } => true,
            NodeModel::Branch { left, right, split_value, split_axis } => {
                &&& forall|i: usize| #[trigger] left.mentions(i) ==> goes_left(all[i as int], split_axis, split_value)
                &&& forall|i: usize| #[trigger] right.mentions(i) ==> goes_right(all[i as int], split_axis, split_value)
                &&& left.sides_sound(all)
                &&& right.sides_sound(all)
            },
        }
    }

    /// Each shape named below a branch is named in every child whose side its box
    /// reaches: a straddling shape on both.
    pub open spec fn straddlers_shared(self, all: Seq<Aabb>) -> bool
        decreases self,
    {
        match self {
            NodeModel::Leaf { .. } => true,
            NodeModel::Branch { left, right, split_value, split_axis } => {
                &&& forall|i: usize|
                    #[trigger] self.mentions(i) && goes_left(all[i as int], split_axis, split_value) ==> left.mentions(i)
                &&& forall|i: usize|
                    #[trigger] self.mentions(i) && goes_right(all[i as int], split_axis, split_value) ==> right.mentions(i)
                &&& left.straddlers_shared(all)
                &&& right.straddlers_shared(all)
            },
        }
    }
}

/// A built tree names only shapes it was built from, and, where their boxes are
/// well formed, every one of them.
pub proof fn lemma_built_mentions(ids: Seq<usize>, all: Seq<Aabb>, i: usize)
    ensures
        built(ids, all).mentions(i) ==> ids.contains(i),
        ids.contains(i) && all[i as int].wf() ==> built(ids, all).mentions(i),
    decreases ids.len(),
{
    if ids.len() > LEAF_SIZE {
        let (a, v) = best_split_of(boxes_at(ids, all));
        let l = kept(ids, all, a, v, true);
        let r = kept(ids, all, a, v, false);
        if l.len() < ids.len() && r.len() < ids.len() {
            lemma_built_mentions(l, all, i);
            lemma_built_mentions(r, all, i);
            lemma_kept_contains(ids, all, a, v, true, i);
            lemma_kept_contains(ids, all, a, v, false, i);
            if all[i as int].wf() {
                assert(all[i as int].min.at(a) <= all[i as int].max.at(a));
            }
        }
    }
}

/// A tree built from shapes listed without repeats names no shape twice in a leaf.
pub proof fn lemma_built_distinct(ids: Seq<usize>, all: Seq<Aabb>)
    requires
        ids.no_duplicates(),
    ensures
        built(ids, all).leaves_distinct(),
    decreases ids.len(),
{
    if ids.len() > LEAF_SIZE {
        let (a, v) = best_split_of(boxes_at(ids, all));
        let l = kept(ids, all, a, v, true);
        let r = kept(ids, all, a, v, false);
        if l.len() < ids.len() && r.len() < ids.len() {
            lemma_kept_distinct(ids, all, a, v, true);
            lemma_kept_distinct(ids, all, a, v, false);
            lemma_built_distinct(l, all);
            lemma_built_distinct(r, all);
        }
    }
}

/// In a built tree each child of a branch names only shapes whose box reaches
/// its side of the plane.
pub proof fn lemma_built_sides(ids: Seq<usize>, all: Seq<Aabb>)
    ensures
        built(ids, all).sides_sound(all),
    decreases ids.len(),
{
    if ids.len() > LEAF_SIZE {
        let (a, v) = best_split_of(boxes_at(ids, all));
        let l = kept(ids, all, a, v, true);
        let r = kept(ids, all, a, v, false);
        if l.len() < ids.len() && r.len() < ids.len() {
            lemma_built_sides(l, all);
            lemma_built_sides(r, all);
            assert forall|i: usize| #[trigger] built(l, all).mentions(i) implies goes_left(all[i as int], a, v) by {
                lemma_built_mentions(l, all, i);
                lemma_kept_contains(ids, all, a, v, true, i);
            }
            assert forall|i: usize| #[trigger] built(r, all).mentions(i) implies goes_right(all[i as int], a, v) by {
                lemma_built_mentions(r, all, i);
                lemma_kept_contains(ids, all, a, v, false, i);
            }
        }
    }
}

/// In a built tree over well-formed boxes, a shape named below a branch is named
/// in each child whose side its box reaches, so a straddling shape in both.
pub proof fn lemma_built_straddlers(ids: Seq<usize>, all: Seq<Aabb>)
    requires
        forall|i: usize| ids.contains(i) ==> #[trigger] all[i as int].wf(),
    ensures
        built(ids, all).straddlers_shared(all),
    decreases ids.len(),
{
    if ids.len() > LEAF_SIZE {
        let (a, v) = best_split_of(boxes_at(ids, all));
        let l = kept(ids, all, a, v, true);
        let r = kept(ids, all, a, v, false);
        if l.len() < ids.len() && r.len() < ids.len() {
            assert forall|i: usize| l.contains(i) implies #[trigger] all[i as int].wf() by {
                lemma_kept_contains(ids, all, a, v, true, i);
            }
            assert forall|i: usize| r.contains(i) implies #[trigger] all[i as int].wf() by {
                lemma_kept_contains(ids, all, a, v, false, i);
            }
            lemma_built_straddlers(l, all);
            lemma_built_straddlers(r, all);
            let m = built(ids, all);
            assert forall|i: usize| #[trigger] m.mentions(i) && goes_left(all[i as int], a, v) implies built(l, all).mentions(i) by {
                lemma_built_mentions(ids, all, i);
                lemma_built_mentions(l, all, i);
                lemma_built_mentions(r, all, i);
                lemma_kept_contains(ids, all, a, v, true, i);
                lemma_kept_contains(ids, all, a, v, false, i);
            }
            assert forall|i: usize| #[trigger] m.mentions(i) && goes_right(all[i as int], a, v) implies built(r, all).mentions(i) by {
                lemma_built_mentions(ids, all, i);
                lemma_built_mentions(l, all, i);
                lemma_built_mentions(r, all, i);
                lemma_kept_contains(ids, all, a, v, true, i);
                lemma_kept_contains(ids, all, a, v, false, i);
            }
        }
    }
}

/// A k-d tree over a fixed set of shapes, for nearest-hit ray queries. The
/// shapes live in one arena; the nodes name them by index, so that a shape whose
/// box straddles a split plane is named from both sides.
#[derive(Debug, PartialEq)]
pub struct KdTree<T> {
    shapes: Vec<T>,
    root: Node,
}

/// The nearest hit at a parameter not below zero over all of `shapes`, as a
/// scan of every shape finds it: `res` names a shape hit there at no larger a
/// parameter than any other, or is empty when none is hit.
pub open spec fn is_nearest_of_all<T: Shape>(res: Option<(usize, Param)>, shapes: Seq<T>, ray: Ray) -> bool {
    let zero = Param { num: 0, den: 1 };
    match res {
        Some((i, t)) => {
            &&& candidate(shapes, ray, zero, None, i as int)
            &&& shapes[i as int].hit_spec(ray) == Some(t)
            &&& forall|j: int| #[trigger] candidate(shapes, ray, zero, None, j) ==> t.le(
                shapes[j].hit_spec(ray).unwrap(),
            )
        },
        None => forall|j: int| 0 <= j < shapes.len() ==> !#[trigger] candidate(shapes, ray, zero, None, j),
    }
}

impl<T: Shape> KdTree<T> {
    /// The shapes, in the order they were given.
    pub closed spec fn shapes_spec(self) -> Seq<T> {
        self.shapes@
    }

    pub closed spec fn root_spec(self) -> Node {
        self.root
    }

    /// What a built tree satisfies: its leaves name its shapes, each shape is
    /// held wherever its box reaches, and leaves are small unless unsplittable.
    pub open spec fn wf(self) -> bool {
        let all = boxes_of(self.shapes_spec());
        &&& self.shapes_spec().len() <= usize::MAX
        &&& self.root_spec().wf(self.shapes_spec().len())
        &&& self.root_spec().leaves_small(all)
        &&& forall|j: int| 0 <= j < self.shapes_spec().len() ==> #[trigger] self.root_spec().holds(j, all)
    }

    /// The answer of a query: the shape's index and the hit's parameter.
    pub open spec fn nearest(self, ray: Ray) -> Option<(usize, Param)> {
        self.root_spec().query(self.shapes_spec(), ray, Param { num: 0, den: 1 }, None)
    }

    /// Builds the tree over `shapes`.
    pub fn new(shapes: Vec<T>) -> (r: KdTree<T>)
        ensures
            r.shapes_spec() == shapes@,
            r.wf(),
            r.root_spec().model() == built(indices(shapes.len() as nat), boxes_of(shapes@)),
            r.root_spec().model().leaves_distinct(),
            r.root_spec().model().sides_sound(boxes_of(shapes@)),
            (forall|j: int| 0 <= j < shapes.len() ==> #[trigger] shapes@[j].bbox_spec().wf())
                ==> r.root_spec().model().straddlers_shared(boxes_of(shapes@)),
    {
        let n = shapes.len();
        let ghost all = boxes_of(shapes@);
        let mut bboxes: Vec<Aabb> = Vec::new();
        let mut ids: Vec<usize> = Vec::new();
        let mut i: usize = 0;
        while i < n
            invariant
                n == shapes.len(),
                all == boxes_of(shapes@),
                i <= n,
                ids.len() == i,
                bboxes.len() == i,
                forall|k: int| 0 <= k < i ==> #[trigger] ids@[k] == k && bboxes@[k] == all[k],
            decreases n - i,
        {
            bboxes.push(shapes[i].bbox());
            ids.push(i);
            i = i + 1;
        }
        let ghost ids0 = ids@;
        proof {
            assert(ids0 =~= indices(n as nat));
            lemma_built_distinct(ids0, all);
            lemma_built_sides(ids0, all);
            if forall|j: int| 0 <= j < n ==> #[trigger] shapes@[j].bbox_spec().wf() {
                assert forall|i: usize| ids0.contains(i) implies #[trigger] all[i as int].wf() by {
                    let k = choose|k: int| 0 <= k < ids0.len() && ids0[k] == i;
                    assert(shapes@[k].bbox_spec().wf());
                }
                lemma_built_straddlers(ids0, all);
            }
        }
        let root = Node::new(ids, bboxes, Ghost(all));
        let r = KdTree { shapes, root };
        assert forall|j: int| 0 <= j < n implies #[trigger] r.root.holds(j, all) by {
            assert(r.root.holds(ids@[j] as int, all));
        }
        r
    }

    /// Finds the shape that `ray` hits first, at a parameter not below zero,
    /// and that parameter.
    pub fn intersection<'s>(&'s self, ray: &Ray) -> (r: Option<(&'s T, Param)>)
        requires
            self.wf(),
        ensures
            r.is_some() == self.nearest(*ray).is_some(),
            r.is_some() ==> *r.unwrap().0 == self.shapes_spec()[self.nearest(*ray).unwrap().0 as int]
                && r.unwrap().1 == self.nearest(*ray).unwrap().1,
            is_nearest_of_all(self.nearest(*ray), self.shapes_spec(), *ray),
    {
        proof {
            lemma_matches_brute_force(*self, *ray);
        }
        match self.root.intersection(&self.shapes, ray, Param::zero(), None) {
            Some((i, t)) => Some((&self.shapes[i], t)),
            None => None,
        }
    }

    /// The root node.
    pub fn root(&self) -> (r: &Node)
        ensures
            *r == self.root_spec(),
    {
        &self.root
    }

    /// The shapes, in the order they were given.
    pub fn shapes(&self) -> (r: &Vec<T>)
        ensures
            r@ == self.shapes_spec(),
    {
        &self.shapes
    }
}

/// A query of a built tree finds what a scan of every shape would: a shape hit
/// at the smallest parameter not below zero, or nothing when no shape is hit.
pub proof fn lemma_matches_brute_force<T: Shape>(tree: KdTree<T>, ray: Ray)
    requires
        tree.wf(),
    ensures
        is_nearest_of_all(tree.nearest(ray), tree.shapes_spec(), ray),
{
    let zero = Param { num: 0, den: 1 };
    let shapes = tree.shapes_spec();
    lemma_query_nearest(tree.root_spec(), shapes, ray, zero, None);
    assert forall|j: int| #[trigger] candidate(shapes, ray, zero, None, j) implies tree.root_spec().holds(
        j,
        boxes_of(shapes),
    ) by {}
}

proof fn lemma_holds_routes(node: Node, all: Seq<Aabb>, i: int, p: spec_fn(Axis) -> int, den: int)
    requires
        node.holds(i, all),
        den > 0,
        forall|a: Axis| all[i].min.at(a) * den <= #[trigger] p(a) <= all[i].max.at(a) * den,
    ensures
        node.routes_to(p, den, i),
    decreases node,
{
    if let Node::Branch { left, right, split_value, split_axis } = node {
        let (lo, hi, x, v) = (all[i].min.at(split_axis), all[i].max.at(split_axis), p(split_axis), split_value as int);
        assert(2 * x <= v * den ==> 2 * lo <= v) by (nonlinear_arith)
            requires
                lo * den <= x,
                den > 0,
        ;
        assert(2 * x >= v * den ==> 2 * hi >= v) by (nonlinear_arith)
            requires
                x <= hi * den,
                den > 0,
        ;
        if 2 * x <= v * den {
            lemma_holds_routes(*left, all, i, p, den);
        }
        if 2 * x >= v * den {
            lemma_holds_routes(*right, all, i, p, den);
        }
    }
}

/// No shape is lost while the tree is built: for every shape and every point of
/// its bounding box (coordinates `p(a) / den`), every leaf that the point reaches
/// from the root holds the shape.
pub proof fn lemma_complete<T: Shape>(tree: KdTree<T>, i: int, p: spec_fn(Axis) -> int, den: int)
    requires
        tree.wf(),
        0 <= i < tree.shapes_spec().len(),
        den > 0,
        forall|a: Axis|
            tree.shapes_spec()[i].bbox_spec().min.at(a) * den <= #[trigger] p(a)
                <= tree.shapes_spec()[i].bbox_spec().max.at(a) * den,
    ensures
        tree.root_spec().routes_to(p, den, i),
{
    let all = boxes_of(tree.shapes_spec());
    assert(tree.root_spec().holds(i, all));
    lemma_holds_routes(tree.root_spec(), all, i, p, den);
}

proof fn lemma_split_bounded(bs: Seq<Aabb>, a: Axis, v: int)
    requires
        bs.len() > 0,
        is_median(bs, a, v),
    ensures
        split_bounded(v),
{
    let c = centers(bs, a);
    assert forall|i: int| 0 <= i < c.len() implies -0x1_0000_0000 <= #[trigger] c[i] <= 0x1_0000_0000 by {
        assert(-0x8000_0000 <= bs[i].min.at(a) < 0x8000_0000);
        assert(-0x8000_0000 <= bs[i].max.at(a) < 0x8000_0000);
    }
    lemma_kth_within(c, (bs.len() / 2) as int, v, -0x1_0000_0000, 0x1_0000_0000);
}

/// Splits the shapes `ids` (with their boxes `bboxes`) by the plane
/// `2 * x[split_axis] == split_value`: a shape goes to each side that its box
/// touches, so a straddling shape goes to both. The input is taken from the
/// end, so each side lists its shapes in reverse order.
#[verifier::spinoff_prover]
fn partition(
    ids: Vec<usize>,
    bboxes: Vec<Aabb>,
    split_axis: Axis,
    split_value: i64,
    Ghost(all): Ghost<Seq<Aabb>>,
) -> (r: ((Vec<usize>, Vec<Aabb>), (Vec<usize>, Vec<Aabb>)))
    requires
        paired(ids@, bboxes@, all),
    ensures
        paired(r.0.0@, r.0.1@, all),
        paired(r.1.0@, r.1.1@, all),
        r.0.0@ == kept(ids@, all, split_axis, split_value as int, true),
        r.1.0@ == kept(ids@, all, split_axis, split_value as int, false),
{
    let mut left: Vec<usize> = Vec::new();
    let mut left_bboxes: Vec<Aabb> = Vec::new();
    let mut right: Vec<usize> = Vec::new();
    let mut right_bboxes: Vec<Aabb> = Vec::new();
    let n = ids.len();
    let mut j: usize = n;
    let ghost v = split_value as int;
    assert(ids@.take(n as int) =~= ids@);
    assert(left@ + kept(ids@, all, split_axis, v, true) =~= kept(ids@, all, split_axis, v, true));
    assert(right@ + kept(ids@, all, split_axis, v, false) =~= kept(ids@, all, split_axis, v, false));
    while j > 0
        invariant
            j <= n,
            n == ids.len(),
            v == split_value as int,
            paired(ids@, bboxes@, all),
            paired(left@, left_bboxes@, all),
            paired(right@, right_bboxes@, all),
            left@ + kept(ids@.take(j as int), all, split_axis, v, true) == kept(ids@, all, split_axis, v, true),
            right@ + kept(ids@.take(j as int), all, split_axis, v, false) == kept(ids@, all, split_axis, v, false),
        decreases j,
    {
        let ghost pre = ids@.take(j as int);
        j = j - 1;
        assert(pre.drop_last() =~= ids@.take(j as int));
        assert(pre.last() == ids@[j as int]);
        let obj = ids[j];
        let bbox = bboxes[j];
        let ghost l0 = left@;
        let ghost r0 = right@;
        assert(ids@[j as int] < all.len() && bboxes@[j as int] == all[ids@[j as int] as int]);
        let (l, r) = partition_bbox(&bbox, split_axis, split_value);
        if l {
            left.push(obj);
            left_bboxes.push(bbox);
        }
        if r {
            right.push(obj);
            right_bboxes.push(bbox);
        }
        proof {
            let rest_l = kept(ids@.take(j as int), all, split_axis, v, true);
            let rest_r = kept(ids@.take(j as int), all, split_axis, v, false);
            assert(pre.len() > 0);
            assert(kept(pre.drop_last(), all, split_axis, v, true) == rest_l);
            assert(kept(pre.drop_last(), all, split_axis, v, false) == rest_r);
            assert(all[pre.last() as int] == bbox);
            assert(goes(all[pre.last() as int], split_axis, v, true) == l);
            assert(goes(all[pre.last() as int], split_axis, v, false) == r);
            if l {
                assert(kept(pre, all, split_axis, v, true) == seq![obj] + rest_l);
                assert(left@ + rest_l =~= l0 + (seq![obj] + rest_l));
            } else {
                assert(kept(pre, all, split_axis, v, true) == rest_l);
            }
            if r {
                assert(kept(pre, all, split_axis, v, false) == seq![obj] + rest_r);
                assert(right@ + rest_r =~= r0 + (seq![obj] + rest_r));
            } else {
                assert(kept(pre, all, split_axis, v, false) == rest_r);
            }
        }
    }
    assert(left@ =~= left@ + kept(ids@.take(0), all, split_axis, v, true));
    assert(right@ =~= right@ + kept(ids@.take(0), all, split_axis, v, false));
    ((left, left_bboxes), (right, right_bboxes))
}

/// The box reaches the plane from the side named by `left`.
pub open spec fn goes(b: Aabb, a: Axis, v: int, left: bool) -> bool {
    if left { goes_left(b, a, v) } else { goes_right(b, a, v) }
}

/// The shapes of `ids` whose box in `all` goes to the side named by `left`, in
/// reverse order.
pub open spec fn kept(ids: Seq<usize>, all: Seq<Aabb>, a: Axis, v: int, left: bool) -> Seq<usize>
    decreases ids.len(),
{
    if ids.len() == 0 {
        Seq::empty()
    } else {
        let rest = kept(ids.drop_last(), all, a, v, left);
        if goes(all[ids.last() as int], a, v, left) {
            seq![ids.last()] + rest
        } else {
            rest
        }
    }
}

proof fn lemma_kept_len(ids: Seq<usize>, bs: Seq<Aabb>, all: Seq<Aabb>, a: Axis, v: int)
    requires
        paired(ids, bs, all),
    ensures
        kept(ids, all, a, v, true).len() == count_left(bs, a, v),
        kept(ids, all, a, v, false).len() == count_right(bs, a, v),
    decreases ids.len(),
{
    if ids.len() > 0 {
        let (i0, b0) = (ids.drop_last(), bs.drop_last());
        assert forall|k: int| 0 <= k < i0.len() implies #[trigger] i0[k] < all.len() && b0[k] == all[i0[k] as int] by {
            assert(ids[k] < all.len() && bs[k] == all[ids[k] as int]);
        }
        lemma_kept_len(i0, b0, all, a, v);
        assert(bs.last() == all[ids.last() as int]);
    }
}

/// A shape is kept exactly when it is listed and its box goes to that side.
pub proof fn lemma_kept_contains(ids: Seq<usize>, all: Seq<Aabb>, a: Axis, v: int, left: bool, x: usize)
    ensures
        kept(ids, all, a, v, left).contains(x) <==> (ids.contains(x) && goes(all[x as int], a, v, left)),
    decreases ids.len(),
{
    if ids.len() > 0 {
        let i0 = ids.drop_last();
        lemma_kept_contains(i0, all, a, v, left, x);
        let rest = kept(i0, all, a, v, left);
        let k = kept(ids, all, a, v, left);
        if ids.contains(x) && goes(all[x as int], a, v, left) {
            let m = choose|m: int| 0 <= m < ids.len() && ids[m] == x;
            if m < ids.len() - 1 {
                assert(i0[m] == x);
                let q = choose|q: int| 0 <= q < rest.len() && rest[q] == x;
                if goes(all[ids.last() as int], a, v, left) {
                    assert(k[q + 1] == x);
                } else {
                    assert(k[q] == x);
                }
            } else {
                assert(k[0] == x);
            }
        }
        if k.contains(x) {
            let q = choose|q: int| 0 <= q < k.len() && k[q] == x;
            if goes(all[ids.last() as int], a, v, left) && q == 0 {
                assert(ids[ids.len() - 1] == x);
            } else {
                let q2 = if goes(all[ids.last() as int], a, v, left) { q - 1 } else { q };
                assert(rest[q2] == x);
                let m = choose|m: int| 0 <= m < i0.len() && i0[m] == x;
                assert(ids[m] == x);
            }
        }
    }
}

/// Keeping some shapes of a list without repeats gives a list without repeats.
pub proof fn lemma_kept_distinct(ids: Seq<usize>, all: Seq<Aabb>, a: Axis, v: int, left: bool)
    requires
        ids.no_duplicates(),
    ensures
        kept(ids, all, a, v, left).no_duplicates(),
    decreases ids.len(),
{
    if ids.len() > 0 {
        let i0 = ids.drop_last();
        assert(i0.no_duplicates());
        lemma_kept_distinct(i0, all, a, v, left);
        let x = ids.last();
        lemma_kept_contains(i0, all, a, v, left, x);
        assert(!i0.contains(x));
        let rest = kept(i0, all, a, v, left);
        if goes(all[x as int], a, v, left) {
            let k = seq![x] + rest;
            assert(!rest.contains(x));
            assert forall|p: int, q: int| 0 <= p < k.len() && 0 <= q < k.len() && p != q implies k[p] != k[q] by {
                if p == 0 {
                    assert(rest[q - 1] == k[q]);
                } else if q == 0 {
                    assert(rest[p - 1] == k[p]);
                } else {
                    assert(rest[p - 1] == k[p] && rest[q - 1] == k[q]);
                }
            }
        }
    }
}

} // verus!
