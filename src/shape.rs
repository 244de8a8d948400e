use vstd::prelude::*;
use crate::geometry::{lemma_le_trans, Aabb, Axis, Param, Ray, Vec3};

verus! {

/// What the index needs of a shape: a bounding box and a ray-intersection test.
pub trait Shape {
    /// The shape's bounding box.
    spec fn bbox_spec(&self) -> Aabb;

    /// The parameter of the shape's nearest hit along `ray`, if any.
    spec fn hit_spec(&self, ray: Ray) -> Option<Param>;

    fn bbox(&self) -> (r: Aabb)
        ensures
            r == self.bbox_spec(),
    ;

    fn intersection(&self, ray: &Ray) -> (r: Option<Param>)
        ensures
            r == self.hit_spec(*ray),
    ;

    /// A hit is a valid parameter whose point lies in the bounding box.
    proof fn lemma_hit_in_bbox(&self, ray: Ray)
        ensures
            self.hit_spec(ray) matches Some(t) ==> t.valid() && self.bbox_spec().holds_point(ray, t),
    ;
}

/// The parameter at which the ray reaches coordinate `p` on axis `a`, given a
/// nonzero direction along `a`, with a positive denominator.
pub open spec fn crossing(p: Vec3, ray: Ray, a: Axis) -> Param {
    let n = p.at(a) - ray.origin.at(a);
    let d = ray.dir.at(a);
    if d > 0 {
        Param { num: n as i64, den: d as i64 }
    } else {
        Param { num: -n as i64, den: -d as i64 }
    }
}

/// The ray passes through `p` at parameter `t`.
pub open spec fn passes_at(p: Vec3, ray: Ray, t: Param) -> bool {
    forall|a: Axis| #[trigger] ray.scaled_at(t, a) == p.at(a) * t.den as int
}

/// The first axis along which the direction is nonzero.
pub open spec fn moving_axis(ray: Ray) -> Option<Axis> {
    if ray.dir.x != 0 {
        Some(Axis::X)
    } else if ray.dir.y != 0 {
        Some(Axis::Y)
    } else if ray.dir.z != 0 {
        Some(Axis::Z)
    } else {
        None
    }
}

/// Where a ray meets a point: at the one parameter, not negative, at which it
/// passes through it.
pub open spec fn point_hit(p: Vec3, ray: Ray) -> Option<Param> {
    match moving_axis(ray) {
        None => if ray.origin == p {
            Some(Param { num: 0, den: 1 })
        } else {
            None
        },
        Some(a) => {
            let t = crossing(p, ray, a);
            if t.num >= 0 && passes_at(p, ray, t) {
                Some(t)
            } else {
                None
            }
        },
    }
}

fn crossing_exec(p: &Vec3, ray: &Ray, a: Axis) -> (r: Param)
    requires
        ray.dir.at(a) != 0,
    ensures
        r == crossing(*p, *ray, a),
        r.valid(),
{
    let n = p.get(a) as i64 - ray.origin.get(a) as i64;
    let d = ray.dir.get(a) as i64;
    if d > 0 {
        Param { num: n, den: d }
    } else {
        Param { num: -n, den: -d }
    }
}

fn passes_on(p: &Vec3, ray: &Ray, t: &Param, a: Axis) -> (r: bool)
    requires
        t.valid(),
        t.num >= 0,
    ensures
        r == (ray.scaled_at(*t, a) == p.at(a) * t.den as int),
{
    let o = ray.origin.get(a) as i128;
    let d = ray.dir.get(a) as i128;
    let q = p.get(a) as i128;
    let den = t.den as i128;
    let num = t.num as i128;
    proof {
        let m: int = 0x8000_0000_0000_0000;
        assert(-0x8000_0000 <= o < 0x8000_0000 && -0x8000_0000 <= d < 0x8000_0000 && -0x8000_0000
            <= q < 0x8000_0000);
        assert(-(0x8000_0000 * m) <= o * den <= 0x8000_0000 * m) by (nonlinear_arith)
            requires
                -0x8000_0000 <= o <= 0x8000_0000,
                0 < den <= m,
        ;
        assert(-(0x8000_0000 * m) <= num * d <= 0x8000_0000 * m) by (nonlinear_arith)
            requires
                -0x8000_0000 <= d <= 0x8000_0000,
                0 <= num <= m,
        ;
        assert(-(0x8000_0000 * m) <= q * den <= 0x8000_0000 * m) by (nonlinear_arith)
            requires
                -0x8000_0000 <= q <= 0x8000_0000,
                0 < den <= m,
        ;
    }
    o * den + num * d == q * den
}

/// A point is a shape of zero extent: a ray hits it only by passing through it.
impl Shape for Vec3 {
    open spec fn bbox_spec(&self) -> Aabb {
        Aabb { min: *self, max: *self }
    }

    open spec fn hit_spec(&self, ray: Ray) -> Option<Param> {
        point_hit(*self, ray)
    }

    fn bbox(&self) -> (r: Aabb) {
        Aabb::new(*self)
    }

    fn intersection(&self, ray: &Ray) -> (r: Option<Param>) {
        let a = if ray.dir.x != 0 {
            Axis::X
        } else if ray.dir.y != 0 {
            Axis::Y
        } else if ray.dir.z != 0 {
            Axis::Z
        } else {
            return if ray.origin == *self {
                Some(Param { num: 0, den: 1 })
            } else {
                None
            };
        };
        let t = crossing_exec(self, ray, a);
        if t.num < 0 {
            return None;
        }
        let on = passes_on(self, ray, &t, Axis::X) && passes_on(self, ray, &t, Axis::Y)
            && passes_on(self, ray, &t, Axis::Z);
        proof {
            if on {
                assert forall|b: Axis| #[trigger] ray.scaled_at(t, b) == self.at(b) * t.den as int by {
                    match b {
                        Axis::X => {},
                        Axis::Y => {},
                        Axis::Z => {},
                    }
                }
            } else {
                assert(!passes_at(*self, *ray, t)) by {
                    if !(ray.scaled_at(t, Axis::X) == self.at(Axis::X) * t.den as int) {
                    } else if !(ray.scaled_at(t, Axis::Y) == self.at(Axis::Y) * t.den as int) {
                    } else {
                        assert(!(ray.scaled_at(t, Axis::Z) == self.at(Axis::Z) * t.den as int));
                    }
                }
            }
        }
        if on {
            Some(t)
        } else {
            None
        }
    }

    proof fn lemma_hit_in_bbox(&self, ray: Ray) {
        if let Some(t) = self.hit_spec(ray) {
            assert forall|a: Axis| #[trigger] ray.scaled_at(t, a) == self.at(a) * t.den as int by {
                if moving_axis(ray).is_none() {
                    assert(ray.dir.at(a) == 0 && ray.origin.at(a) == self.at(a));
                }
            }
        }
    }
}

/// The parameter at which the ray enters the slab of `b` along `a`; zero when it
/// runs parallel to the slab.
pub open spec fn slab_entry(b: Aabb, ray: Ray, a: Axis) -> Param {
    let o = ray.origin.at(a);
    let d = ray.dir.at(a);
    if d > 0 {
        Param { num: (b.min.at(a) - o) as i64, den: d as i64 }
    } else if d < 0 {
        Param { num: (o - b.max.at(a)) as i64, den: -d as i64 }
    } else {
        Param { num: 0, den: 1 }
    }
}

/// The parameter `t` comes no later than the ray leaves the slab of `b` along
/// `a`; a ray parallel to the slab must lie within it.
pub open spec fn within_exit(b: Aabb, ray: Ray, a: Axis, t: Param) -> bool {
    let o = ray.origin.at(a);
    let d = ray.dir.at(a);
    if d > 0 {
        t.le(Param { num: (b.max.at(a) - o) as i64, den: d as i64 })
    } else if d < 0 {
        t.le(Param { num: (o - b.min.at(a)) as i64, den: -d as i64 })
    } else {
        b.min.at(a) <= o <= b.max.at(a)
    }
}

/// The later of two parameters.
pub open spec fn later(t: Param, u: Param) -> Param {
    if t.lt(u) { u } else { t }
}

/// Where a ray meets a box: the first parameter, not negative, at which its
/// point lies in the box (the origin itself when it starts inside).
pub open spec fn box_hit(b: Aabb, ray: Ray) -> Option<Param> {
    let t = later(
        later(later(Param { num: 0, den: 1 }, slab_entry(b, ray, Axis::X)), slab_entry(b, ray, Axis::Y)),
        slab_entry(b, ray, Axis::Z),
    );
    if within_exit(b, ray, Axis::X, t) && within_exit(b, ray, Axis::Y, t) && within_exit(b, ray, Axis::Z, t) {
        Some(t)
    } else {
        None
    }
}

fn slab_entry_exec(b: &Aabb, ray: &Ray, a: Axis) -> (r: Param)
    ensures
        r == slab_entry(*b, *ray, a),
        r.valid(),
{
    let o = ray.origin.get(a) as i64;
    let d = ray.dir.get(a) as i64;
    if d > 0 {
        Param { num: b.min.get(a) as i64 - o, den: d }
    } else if d < 0 {
        Param { num: o - b.max.get(a) as i64, den: -d }
    } else {
        Param { num: 0, den: 1 }
    }
}

fn within_exit_exec(b: &Aabb, ray: &Ray, a: Axis, t: &Param) -> (r: bool)
    ensures
        r == within_exit(*b, *ray, a, *t),
{
    let o = ray.origin.get(a) as i64;
    let d = ray.dir.get(a) as i64;
    if d > 0 {
        t.le_exec(&Param { num: b.max.get(a) as i64 - o, den: d })
    } else if d < 0 {
        t.le_exec(&Param { num: o - b.min.get(a) as i64, den: -d })
    } else {
        b.min.get(a) as i64 <= o && o <= b.max.get(a) as i64
    }
}

fn later_exec(t: Param, u: Param) -> (r: Param)
    ensures
        r == later(t, u),
{
    if t.lt_exec(&u) { u } else { t }
}

/// Inside the slab along `a` at every parameter between its entry and its exit.
proof fn lemma_in_slab(b: Aabb, ray: Ray, a: Axis, t: Param)
    requires
        t.valid(),
        slab_entry(b, ray, a).le(t),
        within_exit(b, ray, a, t),
    ensures
        b.min.at(a) * t.den as int <= ray.scaled_at(t, a) <= b.max.at(a) * t.den as int,
{
    let o = ray.origin.at(a);
    let d = ray.dir.at(a);
    let (lo, hi) = (b.min.at(a), b.max.at(a));
    let (num, den) = (t.num as int, t.den as int);
    assert(-0x8000_0000 <= o < 0x8000_0000 && -0x8000_0000 <= d < 0x8000_0000);
    assert(-0x8000_0000 <= lo < 0x8000_0000 && -0x8000_0000 <= hi < 0x8000_0000);
    let sc = ray.scaled_at(t, a);
    assert(sc == o * den + num * d);
    if d > 0 {
        assert(lo * den <= sc <= hi * den) by (nonlinear_arith)
            requires
                (lo - o) * den <= num * d,
                num * d <= (hi - o) * den,
                sc == o * den + num * d,
        ;
    } else if d < 0 {
        assert(lo * den <= sc <= hi * den) by (nonlinear_arith)
            requires
                (o - hi) * den <= num * (-d),
                num * (-d) <= (o - lo) * den,
                sc == o * den + num * d,
        ;
    } else {
        assert(num * d == 0) by (nonlinear_arith) requires d == 0;
        assert(lo * den <= sc <= hi * den) by (nonlinear_arith)
            requires
                lo <= o <= hi,
                den > 0,
                sc == o * den,
        ;
    }
}

/// A box is a shape of its own: a ray hits it where it first lies inside.
impl Shape for Aabb {
    open spec fn bbox_spec(&self) -> Aabb {
        *self
    }

    open spec fn hit_spec(&self, ray: Ray) -> Option<Param> {
        box_hit(*self, ray)
    }

    fn bbox(&self) -> (r: Aabb) {
        *self
    }

    fn intersection(&self, ray: &Ray) -> (r: Option<Param>) {
        let t = later_exec(
            later_exec(later_exec(Param::zero(), slab_entry_exec(self, ray, Axis::X)), slab_entry_exec(self, ray, Axis::Y)),
            slab_entry_exec(self, ray, Axis::Z),
        );
        if within_exit_exec(self, ray, Axis::X, &t) && within_exit_exec(self, ray, Axis::Y, &t)
            && within_exit_exec(self, ray, Axis::Z, &t) {
            Some(t)
        } else {
            None
        }
    }

    proof fn lemma_hit_in_bbox(&self, ray: Ray) {
        if let Some(t) = self.hit_spec(ray) {
            let zero = Param { num: 0, den: 1 };
            let (ex, ey, ez) = (slab_entry(*self, ray, Axis::X), slab_entry(*self, ray, Axis::Y), slab_entry(*self, ray, Axis::Z));
            let t1 = later(zero, ex);
            let t2 = later(t1, ey);
            assert(t == later(t2, ez));
            assert(t1.valid() && t2.valid() && t.valid());
            assert(ex.le(t1) && t1.le(t2) && ey.le(t2) && t2.le(t) && ez.le(t));
            lemma_le_trans(ex, t1, t2);
            lemma_le_trans(ex, t2, t);
            lemma_le_trans(ey, t2, t);
            lemma_in_slab(*self, ray, Axis::X, t);
            lemma_in_slab(*self, ray, Axis::Y, t);
            lemma_in_slab(*self, ray, Axis::Z, t);
            assert forall|a: Axis|
                self.min.at(a) * t.den as int <= #[trigger] ray.scaled_at(t, a) && ray.scaled_at(t, a)
                    <= self.max.at(a) * t.den as int by {
                match a {
                    Axis::X => {},
                    Axis::Y => {},
                    Axis::Z => {},
                }
            }
        }
    }
}

} // verus!
