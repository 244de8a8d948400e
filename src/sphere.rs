use vstd::prelude::*;
use vstd::arithmetic::div_mod::{lemma_fundamental_div_mod, lemma_mod_multiples_basic, lemma_mod_self_0};
use crate::geometry::{max_int, min_int, Aabb, Axis, Vec3};

verus! {

/// Greatest common divisor, by Euclid's algorithm.
pub open spec fn gcd(a: nat, b: nat) -> nat
    decreases b,
{
    if b == 0 {
        a
    } else {
        gcd(b, a % b)
    }
}

pub open spec fn abs(x: int) -> nat {
    if x < 0 { (-x) as nat } else { x as nat }
}

/// The greatest common divisor of the three coordinates of `d`.
pub open spec fn gcd3(d: spec_fn(Axis) -> int) -> nat {
    gcd(gcd(abs(d(Axis::X)), abs(d(Axis::Y))), abs(d(Axis::Z)))
}

proof fn lemma_gcd_divides(a: nat, b: nat)
    requires
        a > 0 || b > 0,
    ensures
        gcd(a, b) > 0,
        a % gcd(a, b) == 0,
        b % gcd(a, b) == 0,
    decreases b,
{
    if b == 0 {
        lemma_mod_self_0(a as int);
    } else {
        let r = a % b;
        lemma_gcd_divides(b, r);
        let g = gcd(b, r) as int;
        lemma_fundamental_div_mod(a as int, b as int);
        lemma_fundamental_div_mod(b as int, g);
        lemma_fundamental_div_mod(r as int, g);
        let (qb, qr, q) = (b as int / g, r as int / g, a as int / b as int);
        assert(a as int == (qb * q + qr) * g) by (nonlinear_arith)
            requires
                a as int == b as int * q + r as int,
                b as int == g * qb,
                r as int == g * qr,
        ;
        lemma_mod_multiples_basic(qb * q + qr, g);
    }
}

fn gcd_exec(a: u64, b: u64) -> (r: u64)
    ensures
        r as nat == gcd(a as nat, b as nat),
    decreases b,
{
    if b == 0 {
        a
    } else {
        gcd_exec(b, a % b)
    }
}

fn abs_exec(x: i64) -> (r: u64)
    requires
        x > i64::MIN,
    ensures
        r as nat == abs(x as int),
{
    if x < 0 { (-x) as u64 } else { x as u64 }
}

/// `x / g` with the sign of `x`, where `g` divides `|x|`.
fn signed_quotient(x: i64, g: u64) -> (r: i32)
    requires
        x > i64::MIN,
        g > 0,
        abs(x as int) % (g as nat) == 0,
        i32::MIN <= x <= i32::MAX,
    ensures
        r * g == x,
{
    let q = abs_exec(x) / g;
    proof {
        lemma_fundamental_div_mod(abs(x as int) as int, g as int);
        assert(q <= abs(x as int)) by (nonlinear_arith)
            requires
                abs(x as int) as int == g * q,
                g > 0,
                q >= 0,
        ;
        assert(q * g == abs(x as int)) by (nonlinear_arith)
            requires
                abs(x as int) as int == g * q,
        ;
        assert(-(q as int) * g == -(q * g)) by (nonlinear_arith);
    }
    if x < 0 {
        -(q as i64) as i32
    } else {
        q as i32
    }
}

/// The normal direction at `p` of any sphere centered at `center`: the
/// direction from `center` to `p`, reduced to the shortest lattice vector, so
/// that its coordinates have no common divisor above one. It is zero when the
/// two points coincide.
pub fn normal(center: Vec3, p: Vec3) -> (r: Vec3)
    requires
        forall|a: Axis| i32::MIN <= #[trigger] p.at(a) - center.at(a) <= i32::MAX,
    ensures
        ({
            let g = gcd3(|a: Axis| p.at(a) - center.at(a)) as int;
            &&& g == 0 ==> r == Vec3::zero_spec()
            &&& g != 0 ==> forall|a: Axis| #[trigger] r.at(a) * g == p.at(a) - center.at(a)
        }),
{
    let dx = p.x as i64 - center.x as i64;
    let dy = p.y as i64 - center.y as i64;
    let dz = p.z as i64 - center.z as i64;
    proof {
        assert(i32::MIN <= p.at(Axis::X) - center.at(Axis::X) <= i32::MAX);
        assert(i32::MIN <= p.at(Axis::Y) - center.at(Axis::Y) <= i32::MAX);
        assert(i32::MIN <= p.at(Axis::Z) - center.at(Axis::Z) <= i32::MAX);
    }
    let (ax, ay, az) = (abs_exec(dx), abs_exec(dy), abs_exec(dz));
    let gxy = gcd_exec(ax, ay);
    let g = gcd_exec(gxy, az);
    let ghost d = |a: Axis| p.at(a) - center.at(a);
    assert(g as nat == gcd3(d));
    if g == 0 {
        return Vec3 { x: 0, y: 0, z: 0 };
    }
    proof {
        if ax > 0 || ay > 0 {
            lemma_gcd_divides(ax as nat, ay as nat);
        }
        lemma_gcd_divides(gxy as nat, az as nat);
        if gxy > 0 {
            let (gx, gg) = (gxy as int, g as int);
            lemma_fundamental_div_mod(gx, gg);
            lemma_fundamental_div_mod(ax as int, gx);
            lemma_fundamental_div_mod(ay as int, gx);
            let (q, qx, qy) = (gx / gg, ax as int / gx, ay as int / gx);
            assert(ax as int == (q * qx) * gg && ay as int == (q * qy) * gg) by (nonlinear_arith)
                requires
                    gx == gg * q,
                    ax as int == gx * qx,
                    ay as int == gx * qy,
            ;
            lemma_mod_multiples_basic(q * qx, gg);
            lemma_mod_multiples_basic(q * qy, gg);
        } else {
            assert(ax == 0 && ay == 0) by {
                if ax > 0 || ay > 0 {
                    lemma_gcd_divides(ax as nat, ay as nat);
                }
            }
        }
    }
    let r = Vec3 { x: signed_quotient(dx, g), y: signed_quotient(dy, g), z: signed_quotient(dz, g) };
    assert forall|a: Axis| #[trigger] r.at(a) * (g as int) == p.at(a) - center.at(a) by {
        match a {
            Axis::X => {},
            Axis::Y => {},
            Axis::Z => {},
        }
    }
    r
}

/// The bounding box of the sphere centered at `center` with radius `radius`;
/// a negative radius gives the box of its absolute value.
pub fn bounding_box(center: Vec3, radius: i32) -> (r: Aabb)
    requires
        forall|a: Axis|
            i32::MIN <= #[trigger] center.at(a) - abs(radius as int) && center.at(a) + abs(radius as int)
                <= i32::MAX,
    ensures
        forall|a: Axis|
            #[trigger] r.min.at(a) == center.at(a) - abs(radius as int) && r.max.at(a) == center.at(a)
                + abs(radius as int),
{
    proof {
        assert(i32::MIN <= center.at(Axis::X) - abs(radius as int));
        assert(i32::MIN <= center.at(Axis::Y) - abs(radius as int));
        assert(i32::MIN <= center.at(Axis::Z) - abs(radius as int));
    }
    let lo = Vec3 { x: center.x - radius, y: center.y - radius, z: center.z - radius };
    let hi = Vec3 { x: center.x + radius, y: center.y + radius, z: center.z + radius };
    let aabb = Aabb::new(lo);
    let r = aabb.expanded(&hi);
    assert forall|a: Axis|
        #[trigger] r.min.at(a) == center.at(a) - abs(radius as int) && r.max.at(a) == center.at(a)
            + abs(radius as int) by {
        assert(r.min.at(a) == min_int(lo.at(a), hi.at(a)) && r.max.at(a) == max_int(lo.at(a), hi.at(a)));
        match a {
            Axis::X => {},
            Axis::Y => {},
            Axis::Z => {},
        }
    }
    r
}

} // verus!
