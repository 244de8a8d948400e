use geo::geometry::{Aabb, Axis, Param, Ray, Vec3};
use geo::kdtree::{KdTree, Node, LEAF_SIZE};
use geo::partition::{best_partitioning, partition_score};
use geo::shape::Shape;

fn v(x: i32, y: i32, z: i32) -> Vec3 {
    Vec3::new(x, y, z)
}

fn leaf_shapes<T: Clone + Shape>(tree: &KdTree<T>, node: &Node) -> Vec<T> {
    match node {
        Node::Leaf { data } => data.iter().map(|i| tree.shapes()[*i].clone()).collect(),
        _ => panic!("expected a leaf"),
    }
}

fn same(a: Param, b: Param) -> bool {
    (a.num as i128) * (b.den as i128) == (b.num as i128) * (a.den as i128)
}

fn less(a: Param, b: Param) -> bool {
    (a.num as i128) * (b.den as i128) < (b.num as i128) * (a.den as i128)
}

fn brute_force<T: Shape>(shapes: &[T], ray: &Ray) -> Option<Param> {
    let mut best: Option<Param> = None;
    for s in shapes {
        if let Some(t) = s.intersection(ray) {
            if t.num >= 0 && best.map_or(true, |b| less(t, b)) {
                best = Some(t);
            }
        }
    }
    best
}

fn check_leaves(node: &Node) -> usize {
    match node {
        Node::Leaf { data } => {
            assert!(data.len() <= LEAF_SIZE);
            1
        }
        Node::Branch { left, right, .. } => check_leaves(left) + check_leaves(right),
    }
}

/// Every leaf that the doubled point `p2` reaches holds shape `i`.
fn routes(node: &Node, p2: [i64; 3], i: usize) -> bool {
    match node {
        Node::Leaf { data } => data.contains(&i),
        Node::Branch { left, right, split_value, split_axis } => {
            let c = match split_axis {
                Axis::X => p2[0],
                Axis::Y => p2[1],
                Axis::Z => p2[2],
            };
            (c > *split_value || routes(left, p2, i)) && (c < *split_value || routes(right, p2, i))
        }
    }
}

struct Lcg(u64);

impl Lcg {
    fn next(&mut self, lo: i32, hi: i32) -> i32 {
        self.0 = self.0.wrapping_mul(6364136223846793005).wrapping_add(1442695040888963407);
        lo + ((self.0 >> 33) % ((hi - lo + 1) as u64)) as i32
    }

    fn point(&mut self, lo: i32, hi: i32) -> Vec3 {
        v(self.next(lo, hi), self.next(lo, hi), self.next(lo, hi))
    }

    fn boxed(&mut self) -> Aabb {
        let p = self.point(-50, 50);
        let q = v(p.x + self.next(0, 12), p.y + self.next(0, 12), p.z + self.next(0, 12));
        Aabb::new(p).expanded(&q)
    }
}

#[test]
fn test_new() {
    let kd = KdTree::new(vec![Vec3::zero(), v(-1, 2, 0), v(8, 6, -1)]);
    assert_eq!(kd.root(), &Node::Leaf { data: vec![0, 1, 2] });
    assert_eq!(leaf_shapes(&kd, kd.root()), vec![Vec3::zero(), v(-1, 2, 0), v(8, 6, -1)]);

    let kd = KdTree::new(vec![
        Vec3::zero(),
        v(-1, 2, 0),
        v(8, 6, -1),
        v(-1, -3, 2),
        v(0, 0, 1),
        v(10, 1, -4),
        v(-9, -3, -3),
        v(0, -6, 2),
        v(-3, -3, 6),
        v(0, 5, -1),
        v(1, -3, 6),
    ]);
    match kd.root() {
        Node::Branch { left, right, split_value, split_axis } => {
            assert_eq!(*split_value, 0);
            assert_eq!(*split_axis, Axis::Y);
            assert_eq!(
                leaf_shapes(&kd, left),
                vec![
                    v(1, -3, 6),
                    v(-3, -3, 6),
                    v(0, -6, 2),
                    v(-9, -3, -3),
                    v(0, 0, 1),
                    v(-1, -3, 2),
                    v(0, 0, 0),
                ]
            );
            assert_eq!(
                leaf_shapes(&kd, right),
                vec![v(0, 5, -1), v(10, 1, -4), v(0, 0, 1), v(8, 6, -1), v(-1, 2, 0), v(0, 0, 0)]
            );
        }
        _ => panic!("expected a branch"),
    }
}

#[test]
fn test_best_partitioning() {
    // split values are doubled coordinates: 8 stands for 4.0, 4 for 2.0
    assert_eq!(
        best_partitioning(&vec![
            Aabb::new(Vec3::zero()).expanded(&v(10, 10, 10)),
            Aabb::new(v(1, 2, 3)).expanded(&v(7, 2, 7)),
            Aabb::new(v(-1, -2, 3)).expanded(&v(1, 1, 3)),
        ]),
        (Axis::X, 8)
    );

    assert_eq!(
        best_partitioning(&vec![
            Aabb::new(v(-2, -1, 0)),
            Aabb::new(Vec3::zero()),
            Aabb::new(v(3, 1, 2)),
            Aabb::new(v(3, 2, 2)),
            Aabb::new(v(3, 3, 2)),
            Aabb::new(v(4, 4, 2)),
            Aabb::new(v(5, 5, 2)),
        ]),
        (Axis::Y, 4)
    );
}

#[test]
fn empty_scene_has_no_hit() {
    let kd: KdTree<Aabb> = KdTree::new(vec![]);
    assert_eq!(kd.root(), &Node::Leaf { data: vec![] });
    for ray in [
        Ray::new(Vec3::zero(), v(0, 0, 1)),
        Ray::new(v(3, -4, 5), v(-1, 2, 0)),
        Ray::new(v(1, 1, 1), Vec3::zero()),
    ] {
        assert!(kd.intersection(&ray).is_none());
    }
}

#[test]
fn unit_box_at_origin_hit_at_one() {
    // the box that bounds the unit sphere: along the axis both are met at t = 1
    let unit = Aabb::new(v(-1, -1, -1)).expanded(&v(1, 1, 1));
    let kd = KdTree::new(vec![unit]);
    let (s, t) = kd.intersection(&Ray::new(v(0, 0, -2), v(0, 0, 1))).unwrap();
    assert_eq!(*s, unit);
    assert!(same(t, Param::new(1, 1)));
    assert!(kd.intersection(&Ray::new(v(0, 0, 2), v(0, 0, 1))).is_none());
}

#[test]
fn scattered_points_split_on_best_axis() {
    let pts = vec![
        Vec3::zero(),
        v(-1, 2, 0),
        v(8, 6, -1),
        v(-1, -3, 2),
        v(0, 0, 1),
        v(10, 1, -4),
        v(-9, -3, -3),
        v(0, -6, 2),
        v(-3, -3, 6),
        v(0, 5, -1),
        v(1, -3, 6),
    ];
    let boxes: Vec<Aabb> = pts.iter().map(|p| p.bbox()).collect();
    // the median planes score 8 on X, 7 on Y and 7 on Z: Y comes first
    assert_eq!(partition_score(&boxes, Axis::X, 0), 8);
    assert_eq!(partition_score(&boxes, Axis::Y, 0), 7);
    assert_eq!(partition_score(&boxes, Axis::Z, 0), 7);
    assert_eq!(best_partitioning(&boxes), (Axis::Y, 0));
    let kd = KdTree::new(pts);
    match kd.root() {
        Node::Branch { left, right, split_value, split_axis } => {
            assert_eq!((*split_axis, *split_value), (Axis::Y, 0));
            assert!(matches!(**left, Node::Leaf { .. }));
            assert!(matches!(**right, Node::Leaf { .. }));
        }
        _ => panic!("expected a branch"),
    }
}

fn straddling_scene() -> Vec<Aabb> {
    let mut boxes = Vec::new();
    for i in 0..10 {
        boxes.push(Aabb::new(v(-20 - i, 0, 0)));
        boxes.push(Aabb::new(v(20 + i, 0, 0)));
    }
    // spans the plane x = 0 that splits the rest
    boxes.push(Aabb::new(v(-2, -1, -1)).expanded(&v(2, 1, 1)));
    boxes
}

#[test]
fn straddling_shape_found_from_both_sides() {
    let boxes = straddling_scene();
    let big = boxes[20];
    let kd = KdTree::new(boxes);
    match kd.root() {
        Node::Branch { split_axis, split_value, .. } => {
            assert_eq!(*split_axis, Axis::X);
            assert!(*split_value > -4 && *split_value < 4);
        }
        _ => panic!("expected a branch"),
    }
    let (s, t) = kd.intersection(&Ray::new(v(-10, 0, 8), v(1, 0, -1))).unwrap();
    assert_eq!(*s, big);
    assert!(same(t, Param::new(8, 1)));
    let (s, t) = kd.intersection(&Ray::new(v(10, 0, 8), v(-1, 0, -1))).unwrap();
    assert_eq!(*s, big);
    assert!(same(t, Param::new(8, 1)));
    let (s, _) = kd.intersection(&Ray::new(v(0, 0, 9), v(0, 0, -1))).unwrap();
    assert_eq!(*s, big);
}

#[test]
fn query_agrees_with_brute_force() {
    let mut rng = Lcg(7);
    for round in 0..6 {
        let boxes: Vec<Aabb> = (0..40 + 10 * round).map(|_| rng.boxed()).collect();
        let kd = KdTree::new(boxes.clone());
        for _ in 0..200 {
            let ray = Ray::new(rng.point(-60, 60), rng.point(-3, 3));
            let expected = brute_force(&boxes, &ray);
            let got = kd.intersection(&ray);
            match (expected, got) {
                (None, None) => {}
                (Some(e), Some((s, t))) => {
                    assert!(same(e, t));
                    assert!(same(s.intersection(&ray).unwrap(), t));
                }
                _ => panic!("tree and scan disagree"),
            }
        }
    }
}

#[test]
fn points_agree_with_brute_force() {
    let mut rng = Lcg(11);
    let pts: Vec<Vec3> = (0..60).map(|_| rng.point(-5, 5)).collect();
    let kd = KdTree::new(pts.clone());
    for p in &pts {
        // aim from a point of the lattice through a shape
        let o = rng.point(-8, 8);
        let d = v(p.x - o.x, p.y - o.y, p.z - o.z);
        let ray = Ray::new(o, d);
        let expected = brute_force(&pts, &ray);
        assert!(expected.is_some());
        let (_, t) = kd.intersection(&ray).unwrap();
        assert!(same(expected.unwrap(), t));
    }
}

#[test]
fn zero_direction_components_terminate_and_agree() {
    let boxes = straddling_scene();
    let kd = KdTree::new(boxes.clone());
    let rays = [
        // parallel to the split plane, origin on it
        Ray::new(v(0, 0, 9), v(0, 0, -1)),
        Ray::new(v(0, 9, 0), v(0, -1, 0)),
        // parallel to the split plane, origin off it
        Ray::new(v(25, 0, 9), v(0, 0, -1)),
        Ray::new(v(-25, 0, 9), v(0, 0, -1)),
        // no direction at all
        Ray::new(v(20, 0, 0), Vec3::zero()),
        Ray::new(v(5, 5, 5), Vec3::zero()),
        // starting on the plane and leaving it either way
        Ray::new(Vec3::zero(), v(1, 0, 0)),
        Ray::new(Vec3::zero(), v(-1, 0, 0)),
    ];
    for ray in rays.iter() {
        let expected = brute_force(&boxes, ray);
        let got = kd.intersection(ray).map(|(_, t)| t);
        assert_eq!(expected.is_some(), got.is_some());
        if let (Some(e), Some(g)) = (expected, got) {
            assert!(same(e, g));
        }
    }
    let (s, _) = kd.intersection(&rays[4]).unwrap();
    assert_eq!(*s, Aabb::new(v(20, 0, 0)));
    assert!(kd.intersection(&rays[5]).is_none());
}

#[test]
fn repeated_queries_return_the_same() {
    let mut rng = Lcg(3);
    let boxes: Vec<Aabb> = (0..80).map(|_| rng.boxed()).collect();
    let kd = KdTree::new(boxes);
    for _ in 0..50 {
        let ray = Ray::new(rng.point(-60, 60), rng.point(-2, 2));
        let a = kd.intersection(&ray).map(|(s, t)| (*s, t));
        let b = kd.intersection(&ray).map(|(s, t)| (*s, t));
        assert_eq!(a, b);
    }
}

#[test]
fn leaves_stay_small() {
    let mut rng = Lcg(5);
    let boxes: Vec<Aabb> = (0..300).map(|_| rng.boxed()).collect();
    let kd = KdTree::new(boxes);
    assert!(check_leaves(kd.root()) > 1);
}

#[test]
fn unsplittable_shapes_share_one_leaf() {
    let kd = KdTree::new(vec![v(1, 2, 3); LEAF_SIZE + 1]);
    match kd.root() {
        Node::Leaf { data } => assert_eq!(data.len(), LEAF_SIZE + 1),
        _ => panic!("expected a leaf"),
    }
    let (_, t) = kd.intersection(&Ray::new(v(1, 2, 0), v(0, 0, 1))).unwrap();
    assert!(same(t, Param::new(3, 1)));
}

#[test]
fn every_shape_reached_from_its_box() {
    let mut rng = Lcg(9);
    let boxes: Vec<Aabb> = (0..120).map(|_| rng.boxed()).collect();
    let kd = KdTree::new(boxes.clone());
    for (i, b) in boxes.iter().enumerate() {
        for p2 in [
            [2 * b.min.x as i64, 2 * b.min.y as i64, 2 * b.min.z as i64],
            [2 * b.max.x as i64, 2 * b.max.y as i64, 2 * b.max.z as i64],
            [
                b.min.x as i64 + b.max.x as i64,
                b.min.y as i64 + b.max.y as i64,
                b.min.z as i64 + b.max.z as i64,
            ],
        ] {
            assert!(routes(kd.root(), p2, i));
        }
    }
}

/// Checks that no leaf repeats a shape and that each child names only shapes
/// reaching its side; returns the shapes named below `node`.
fn check_sides(node: &Node, boxes: &[Aabb]) -> Vec<usize> {
    match node {
        Node::Leaf { data } => {
            let mut sorted = data.clone();
            sorted.sort();
            sorted.dedup();
            assert_eq!(sorted.len(), data.len());
            data.clone()
        }
        Node::Branch { left, right, split_value, split_axis } => {
            let coord = |v: Vec3| -> i64 {
                match split_axis {
                    Axis::X => v.x as i64,
                    Axis::Y => v.y as i64,
                    Axis::Z => v.z as i64,
                }
            };
            let l = check_sides(left, boxes);
            let r = check_sides(right, boxes);
            for i in &l {
                assert!(2 * coord(boxes[*i].min) <= *split_value);
            }
            for i in &r {
                assert!(2 * coord(boxes[*i].max) >= *split_value);
            }
            for i in l.iter().chain(r.iter()) {
                let b = boxes[*i];
                if 2 * coord(b.min) <= *split_value && 2 * coord(b.max) >= *split_value {
                    assert!(l.contains(i) && r.contains(i));
                }
            }
            l.into_iter().chain(r).collect()
        }
    }
}

#[test]
fn children_hold_only_their_side() {
    let mut rng = Lcg(13);
    let boxes: Vec<Aabb> = (0..200).map(|_| rng.boxed()).collect();
    let kd = KdTree::new(boxes.clone());
    let named = check_sides(kd.root(), &boxes);
    for i in 0..boxes.len() {
        assert!(named.contains(&i));
    }
}
