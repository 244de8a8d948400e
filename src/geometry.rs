use vstd::prelude::*;

verus! {

/// One of the three spatial axes.
#[derive(Clone, Copy, Debug, PartialEq, Eq, Structural)]
pub enum Axis {
    X,
    Y,
    Z,
}

/// A point or a direction on the integer lattice.
#[derive(Clone, Copy, Debug, PartialEq, Eq, Structural)]
pub struct Vec3 {
    pub x: i32,
    pub y: i32,
    pub z: i32,
}

impl Vec3 {
    pub fn new(x: i32, y: i32, z: i32) -> (r: Vec3)
        ensures
            r == (Vec3 { x, y, z }),
    {
        Vec3 { x, y, z }
    }

    pub open spec fn zero_spec() -> Vec3 {
        Vec3 { x: 0, y: 0, z: 0 }
    }

    pub fn zero() -> (r: Vec3)
        ensures
            r == Vec3::zero_spec(),
    {
        Vec3 { x: 0, y: 0, z: 0 }
    }

    /// The coordinate along `a`.
    pub open spec fn at(self, a: Axis) -> int {
        match a {
            Axis::X => self.x as int,
            Axis::Y => self.y as int,
            Axis::Z => self.z as int,
        }
    }

    pub fn get(&self, a: Axis) -> (r: i32)
        ensures
            r as int == self.at(a),
    {
        match a {
            Axis::X => self.x,
            Axis::Y => self.y,
            Axis::Z => self.z,
        }
    }
}

/// A ray parameter `num / den`, an exact rational. It is valid when `den > 0`.
#[derive(Clone, Copy, Debug, PartialEq, Eq, Structural)]
pub struct Param {
    pub num: i64,
    pub den: i64,
}

/// Multiplies two 64-bit integers without overflow.
fn wide_mul(a: i64, b: i64) -> (r: i128)
    ensures
        r as int == a as int * b as int,
{
    proof {
        lemma_i64_product_fits(a as int, b as int);
    }
    (a as i128) * (b as i128)
}

proof fn lemma_i64_product_fits(a: int, b: int)
    requires
        i64::MIN <= a <= i64::MAX,
        i64::MIN <= b <= i64::MAX,
    ensures
        i128::MIN <= a * b <= i128::MAX,
{
    let m: int = 0x8000_0000_0000_0000;
    assert(-m <= a <= m && -m <= b <= m);
    assert(-(m * m) <= a * b <= m * m) by (nonlinear_arith)
        requires
            -m <= a <= m,
            -m <= b <= m,
            m > 0,
    ;
    assert(m * m == 0x4000_0000_0000_0000_0000_0000_0000_0000);
}

impl Param {
    pub fn new(num: i64, den: i64) -> (r: Param)
        ensures
            r == (Param { num, den }),
    {
        Param { num, den }
    }

    /// The parameter zero, the start of a ray.
    pub fn zero() -> (r: Param)
        ensures
            r == (Param { num: 0, den: 1 }),
    {
        Param { num: 0, den: 1 }
    }

    pub open spec fn valid(self) -> bool {
        self.den > 0
    }

    /// `self <= o` as rationals, for valid parameters.
    pub open spec fn le(self, o: Param) -> bool {
        self.num as int * o.den as int <= o.num as int * self.den as int
    }

    /// `self < o` as rationals, for valid parameters.
    pub open spec fn lt(self, o: Param) -> bool {
        !o.le(self)
    }

    pub fn le_exec(&self, o: &Param) -> (r: bool)
        ensures
            r == self.le(*o),
    {
        wide_mul(self.num, o.den) <= wide_mul(o.num, self.den)
    }

    pub fn lt_exec(&self, o: &Param) -> (r: bool)
        ensures
            r == self.lt(*o),
    {
        !o.le_exec(self)
    }
}

/// Order on valid parameters is transitive.
pub proof fn lemma_le_trans(a: Param, b: Param, c: Param)
    requires
        a.valid(),
        b.valid(),
        c.valid(),
        a.le(b),
        b.le(c),
    ensures
        a.le(c),
{
    let (an, ad, bn, bd, cn, cd) = (
        a.num as int,
        a.den as int,
        b.num as int,
        b.den as int,
        c.num as int,
        c.den as int,
    );
    assert(an * bd * cd <= bn * ad * cd) by (nonlinear_arith)
        requires
            an * bd <= bn * ad,
            cd > 0,
    ;
    assert(bn * cd * ad <= cn * bd * ad) by (nonlinear_arith)
        requires
            bn * cd <= cn * bd,
            ad > 0,
    ;
    assert(an * cd * bd <= cn * ad * bd) by (nonlinear_arith)
        requires
            an * bd * cd <= bn * ad * cd,
            bn * cd * ad <= cn * bd * ad,
    ;
    assert(an * cd <= cn * ad) by (nonlinear_arith)
        requires
            an * cd * bd <= cn * ad * bd,
            bd > 0,
    ;
}

/// A half-line `origin + t * dir` for `t >= 0`.
#[derive(Clone, Copy, Debug, PartialEq, Eq, Structural)]
pub struct Ray {
    pub origin: Vec3,
    pub dir: Vec3,
}

impl Ray {
    pub fn new(origin: Vec3, dir: Vec3) -> (r: Ray)
        ensures
            r == (Ray { origin, dir }),
    {
        Ray { origin, dir }
    }

    /// The coordinate along `a` of the point at parameter `t`, times `t.den`.
    pub open spec fn scaled_at(self, t: Param, a: Axis) -> int {
        self.origin.at(a) * t.den as int + t.num as int * self.dir.at(a)
    }
}

/// An axis-aligned bounding box, given by its two extreme corners.
#[derive(Clone, Copy, Debug, PartialEq, Eq, Structural)]
pub struct Aabb {
    pub min: Vec3,
    pub max: Vec3,
}

pub open spec fn min_int(a: int, b: int) -> int {
    if a <= b { a } else { b }
}

pub open spec fn max_int(a: int, b: int) -> int {
    if a >= b { a } else { b }
}

impl Aabb {
    /// The box that holds the single point `p`.
    pub fn new(p: Vec3) -> (r: Aabb)
        ensures
            r == (Aabb { min: p, max: p }),
    {
        Aabb { min: p, max: p }
    }

    pub fn min(&self) -> (r: Vec3)
        ensures
            r == self.min,
    {
        self.min
    }

    pub fn max(&self) -> (r: Vec3)
        ensures
            r == self.max,
    {
        self.max
    }

    /// Each corner lies below or on the other on every axis.
    pub open spec fn wf(self) -> bool {
        forall|a: Axis| self.min.at(a) <= self.max.at(a)
    }

    /// The smallest box that holds `self` and `p`.
    pub fn expanded(&self, p: &Vec3) -> (r: Aabb)
        ensures
            forall|a: Axis| r.min.at(a) == min_int(self.min.at(a), p.at(a)),
            forall|a: Axis| r.max.at(a) == max_int(self.max.at(a), p.at(a)),
    {
        let min = Vec3 {
            x: if self.min.x <= p.x { self.min.x } else { p.x },
            y: if self.min.y <= p.y { self.min.y } else { p.y },
            z: if self.min.z <= p.z { self.min.z } else { p.z },
        };
        let max = Vec3 {
            x: if self.max.x >= p.x { self.max.x } else { p.x },
            y: if self.max.y >= p.y { self.max.y } else { p.y },
            z: if self.max.z >= p.z { self.max.z } else { p.z },
        };
        Aabb { min, max }
    }

    /// Twice the center's coordinate along `a`, which is always an integer.
    pub open spec fn center2(self, a: Axis) -> int {
        self.min.at(a) + self.max.at(a)
    }

    pub fn center2_exec(&self, a: Axis) -> (r: i64)
        ensures
            r as int == self.center2(a),
    {
        self.min.get(a) as i64 + self.max.get(a) as i64
    }

    /// The point at parameter `t` of `ray` lies in the box.
    pub open spec fn holds_point(self, ray: Ray, t: Param) -> bool {
        forall|a: Axis|
            self.min.at(a) * t.den as int <= #[trigger] ray.scaled_at(t, a) && ray.scaled_at(t, a)
                <= self.max.at(a) * t.den as int
    }
}

} // verus!
