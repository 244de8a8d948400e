use geo::geometry::{Aabb, Param, Ray, Vec3};
use geo::select::ksmallest;
use geo::shape::Shape;
use geo::sphere::{bounding_box, normal};

#[test]
fn test_normal() {
    assert_eq!(normal(Vec3::zero(), Vec3::new(3, 0, 0)), Vec3::new(1, 0, 0));
    assert_eq!(normal(Vec3::new(2, 1, 0), Vec3::new(2, 0, 0)), Vec3::new(0, -1, 0));
}

#[test]
fn normal_reduces_by_common_divisor() {
    assert_eq!(normal(Vec3::new(1, 1, 1), Vec3::new(7, -8, 13)), Vec3::new(2, -3, 4));
    assert_eq!(normal(Vec3::zero(), Vec3::new(4, 6, 9)), Vec3::new(4, 6, 9));
    assert_eq!(normal(Vec3::new(5, 5, 5), Vec3::new(5, 5, 5)), Vec3::zero());
}

#[test]
fn test_bounding_box() {
    let bbox = bounding_box(Vec3::zero(), 5);
    assert_eq!(bbox.min(), Vec3::new(-5, -5, -5));
    assert_eq!(bbox.max(), Vec3::new(5, 5, 5));

    let bbox = bounding_box(Vec3::new(1, -2, 3), 10);
    assert_eq!(bbox.min(), Vec3::new(-9, -12, -7));
    assert_eq!(bbox.max(), Vec3::new(11, 8, 13));
}

#[test]
fn bounding_box_of_negative_radius() {
    let bbox = bounding_box(Vec3::new(1, 2, 3), -4);
    assert_eq!(bbox.min(), Vec3::new(-3, -2, -1));
    assert_eq!(bbox.max(), Vec3::new(5, 6, 7));
}

#[test]
fn kth_smallest_values() {
    assert_eq!(ksmallest(vec![5, 1, 4, 2, 3], 0), 1);
    assert_eq!(ksmallest(vec![5, 1, 4, 2, 3], 2), 3);
    assert_eq!(ksmallest(vec![5, 1, 4, 2, 3], 4), 5);
    assert_eq!(ksmallest(vec![7, 7, 7, 1, 9], 1), 7);
    assert_eq!(ksmallest(vec![7, 7, 7, 1, 9], 3), 7);
    assert_eq!(ksmallest(vec![-3], 0), -3);
}

#[test]
fn point_hit_where_the_ray_passes() {
    let p = Vec3::new(2, 4, 6);
    assert_eq!(p.intersection(&Ray::new(Vec3::zero(), Vec3::new(1, 2, 3))), Some(Param::new(2, 1)));
    assert_eq!(p.intersection(&Ray::new(Vec3::zero(), Vec3::new(-1, -2, -3))), None);
    assert_eq!(p.intersection(&Ray::new(Vec3::zero(), Vec3::new(1, 2, 4))), None);
    assert_eq!(p.intersection(&Ray::new(p, Vec3::zero())), Some(Param::new(0, 1)));
    assert_eq!(p.intersection(&Ray::new(Vec3::zero(), Vec3::zero())), None);
}

#[test]
fn box_hit_where_the_ray_enters() {
    let b = Aabb::new(Vec3::new(1, 1, 1)).expanded(&Vec3::new(3, 3, 3));
    let t = b.intersection(&Ray::new(Vec3::new(0, 2, 2), Vec3::new(2, 0, 0))).unwrap();
    assert_eq!(t.num * 2, t.den);
    let t = b.intersection(&Ray::new(Vec3::new(2, 2, 2), Vec3::new(1, 0, 0))).unwrap();
    assert_eq!(t.num, 0);
    assert!(b.intersection(&Ray::new(Vec3::new(0, 5, 2), Vec3::new(1, 0, 0))).is_none());
    assert!(b.intersection(&Ray::new(Vec3::new(5, 2, 2), Vec3::new(1, 0, 0))).is_none());
}

#[test]
fn params_compare_as_fractions() {
    assert!(Param::new(1, 2).le_exec(&Param::new(2, 4)));
    assert!(Param::new(1, 3).lt_exec(&Param::new(1, 2)));
    assert!(!Param::new(-1, 2).le_exec(&Param::new(-2, 3)));
}
