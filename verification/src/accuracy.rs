//! How far rounding can take the results off: hit points off the sphere,
//! unit vectors off unit length, reflections off the mirror law.

use vstd::prelude::*;
use std::ops::Range;
use crate::fixed::Fixed;
use crate::fixed::is_floor_sqrt;
use crate::fixed::lemma_floor_sqrt_exists;
use crate::fixed::lemma_hypot;
use crate::fixed::lemma_sqrt_spec;
use crate::fixed::lemma_times_negate;
use crate::fixed::magnitude;
use crate::fixed::MAX_RAW;
use crate::fixed::quot;
use crate::fixed::ONE_RAW;
use crate::hit::Hittable;
use crate::ray::Ray;
use crate::sphere::Sphere;
use crate::vec::Vec3;
use crate::vec::lemma_length_squared_nonneg;
use crate::vec::lemma_unit_bounded;

verus! {

/// Completing the square: `a` times the residual
/// `a t^2 + 2 s hb t + s^2 cc` is `(a t + s hb)^2 - s^2 (hb^2 - a cc)`.
proof fn lemma_complete_square(s: int, a: int, t: int, hb: int, cc: int)
    ensures
        a * (a * (t * t) + 2 * (s * (t * hb)) + s * s * cc) == (a * t + s * hb) * (a * t + s * hb) - s
            * s * (hb * hb - a * cc),
{
    let k = a * (t * t) + 2 * (s * (t * hb)) + s * s * cc;
    let u = a * t + s * hb;

        let at = a * t;
        let shb = s * hb;
        let x = a * (t * t);
        let y = s * (t * hb);
        let z = s * s * cc;
        assert(u * u == at * at + 2 * (at * shb) + shb * shb) by (nonlinear_arith)
            requires
                u == at + shb,
        ;
        assert(a * k == a * x + 2 * (a * y) + a * z) by (nonlinear_arith)
            requires
                k == x + 2 * y + z,
        ;
        assert(at * at == a * x) by (nonlinear_arith)
            requires
                at == a * t,
                x == a * (t * t),
        ;
        assert(at * shb == a * y) by (nonlinear_arith)
            requires
                at == a * t,
                shb == s * hb,
                y == s * (t * hb),
        ;
        assert(shb * shb == s * s * (hb * hb)) by (nonlinear_arith)
            requires
                shb == s * hb,
        ;
        assert(a * z == s * s * (a * cc)) by (nonlinear_arith)
            requires
                z == s * s * cc,
        ;
        assert(s * s * (hb * hb - a * cc) == s * s * (hb * hb) - s * s * (a * cc))
            by (nonlinear_arith);
    }

/// The residual of the quadratic at the computed root is small.
///
/// All quantities are raw counts, and `s` is 2^32. With `a`, `hb` and `cc` the
/// coefficients, `disc` the discriminant and `sq` its square root as they
/// were computed, and `t` the computed root, the value
/// `a t^2 + 2 s hb t + s^2 cc`, which is the residual in units of 2^-96, is
/// bounded by a multiple of `s^2`.
proof fn lemma_residual_of_root(
    s: int,
    a: int,
    t: int,
    hb: int,
    cc: int,
    hh: int,
    ac: int,
    disc: int,
    sq: int,
    num: int,
) -> (k: int)
    requires
        s == 0x1_0000_0000,
        s * hh <= hb * hb < s * hh + s,
        -s < a * cc - s * ac < s,
        disc == hh - ac,
        0 <= sq,
        sq * sq <= s * disc < (sq + 1) * (sq + 1),
        num == -hb - sq || num == -hb + sq,
        0 < a,
        -a < t * a - num * s < a,
        s <= 16 * a,
        a <= 192 * s,
        sq <= 0x4000 * s,
    ensures
        k == a * (t * t) + 2 * (s * (t * hb)) + s * s * cc,
        -(35 * 0x4000) * (s * s) <= k <= (35 * 0x4000) * (s * s),
{
    let k = a * (t * t) + 2 * (s * (t * hb)) + s * s * cc;
    let u = a * t + s * hb;
    let rt = num * s - t * a;
    let sigma = num + hb;
    let r1 = hb * hb - s * hh;
    let r2 = a * cc - s * ac;
    let gap = s * disc - sq * sq;
    // u = s sigma - rt, and sigma is sq or -sq.
    assert(u == s * sigma - rt) by (nonlinear_arith)
        requires
            u == a * t + s * hb,
            rt == num * s - t * a,
            sigma == num + hb,
    ;
    assert(sigma * sigma == sq * sq) by (nonlinear_arith)
        requires
            sigma == sq || sigma == -sq,
    ;
    // a k = u^2 - s^2 (hb^2 - a cc)
    lemma_complete_square(s, a, t, hb, cc);
    assert(hb * hb - a * cc == s * disc + r1 - r2) by (nonlinear_arith)
        requires
            r1 == hb * hb - s * hh,
            r2 == a * cc - s * ac,
            disc == hh - ac,
    ;
    assert(u * u == s * s * (sq * sq) - 2 * (s * (sigma * rt)) + rt * rt) by (nonlinear_arith)
        requires
            u == s * sigma - rt,
            sigma * sigma == sq * sq,
    ;
    assert(s * s * (hb * hb - a * cc) == s * s * (sq * sq) + s * s * gap + s * s * (r1 - r2))
        by (nonlinear_arith)
        requires
            hb * hb - a * cc == s * disc + r1 - r2,
            gap == s * disc - sq * sq,
    ;
    let e1 = 2 * (s * (sigma * rt));
    let e2 = rt * rt;
    let e3 = s * s * gap;
    let e4 = s * s * (r1 - r2);
    assert(a * k == -e1 + e2 - e3 - e4);
    // the four error terms
    assert(gap <= 2 * sq) by (nonlinear_arith)
        requires
            gap == s * disc - sq * sq,
            s * disc < (sq + 1) * (sq + 1),
    ;
    assert(0 <= gap);
    assert(-(a * sq) <= sigma * rt <= a * sq) by (nonlinear_arith)
        requires
            sigma == sq || sigma == -sq,
            -a < rt < a,
            0 <= sq,
    ;
    assert(-(2 * (a * (s * sq))) <= e1 <= 2 * (a * (s * sq))) by (nonlinear_arith)
        requires
            e1 == 2 * (s * (sigma * rt)),
            -(a * sq) <= sigma * rt <= a * sq,
            s == 0x1_0000_0000,
    ;
    assert(0 <= e2 <= a * a) by (nonlinear_arith)
        requires
            e2 == rt * rt,
            -a < rt < a,
    ;
    assert(0 <= e3 <= 32 * (a * (s * sq))) by (nonlinear_arith)
        requires
            e3 == s * s * gap,
            0 <= gap <= 2 * sq,
            s <= 16 * a,
            s == 0x1_0000_0000,
            0 <= sq,
    ;
    assert(-(32 * (a * (s * s))) <= e4 <= 32 * (a * (s * s))) by (nonlinear_arith)
        requires
            e4 == s * s * (r1 - r2),
            -s < r1 - r2 < 2 * s,
            s <= 16 * a,
            s == 0x1_0000_0000,
    ;
    let bound = 34 * (s * sq) + a + 32 * (s * s);
    assert(-(a * bound) <= a * k <= a * bound) by (nonlinear_arith)
        requires
            a * k == -e1 + e2 - e3 - e4,
            -(2 * (a * (s * sq))) <= e1 <= 2 * (a * (s * sq)),
            0 <= e2 <= a * a,
            0 <= e3 <= 32 * (a * (s * sq)),
            -(32 * (a * (s * s))) <= e4 <= 32 * (a * (s * s)),
            bound == 34 * (s * sq) + a + 32 * (s * s),
    ;
    assert(-bound <= k <= bound) by (nonlinear_arith)
        requires
            -(a * bound) <= a * k <= a * bound,
            0 < a,
    ;
    assert(bound <= (35 * 0x4000) * (s * s)) by (nonlinear_arith)
        requires
            bound == 34 * (s * sq) + a + 32 * (s * s),
            sq <= 0x4000 * s,
            a <= 192 * s,
            s == 0x1_0000_0000,
            0 <= sq,
    ;
    k
}

/// One coordinate's share of the squared distance from the center to the
/// computed point, against the same share of the quadratic.
///
/// All quantities are raw counts, and `s` is 2^32. With `oc` the coordinate
/// of the ray's origin from the center, `d` that of the direction, `t` the
/// ray parameter, `dt` the computed product `d t`, and `qq`, `oo`, `od`,
/// `dd` the computed squares and products, `s^3 qq` differs from
/// `s^3 oo + 2 s^2 t od + s t^2 dd` by a bounded multiple of `s^3`.
proof fn lemma_coordinate(
    s: int,
    oc: int,
    d: int,
    t: int,
    dt: int,
    qq: int,
    oo: int,
    od: int,
    dd: int,
)
    requires
        s == 0x1_0000_0000,
        -s < d * t - s * dt < s,
        s * qq <= (oc + dt) * (oc + dt) < s * qq + s,
        s * oo <= oc * oc < s * oo + s,
        -s < oc * d - s * od < s,
        s * dd <= d * d < s * dd + s,
        -0x100 * s <= oc <= 0x100 * s,
        -0x8 * s <= d <= 0x8 * s,
        -0x80 * s <= t <= 0x80 * s,
    ensures
        -19203 * (s * s * s) <= s * s * s * qq - (s * s * s * oo + 2 * (s * s * (t * od)) + s * (t
            * t * dd)) <= 19203 * (s * s * s),
{
    let q = oc + dt;
    let x = s * oc + d * t;
    let eps = d * t - s * dt;
    let r = q * q - s * qq;
    let m = s * s * (oc * oc) + 2 * (s * (t * (oc * d))) + t * t * (d * d);
    let target = s * s * s * oo + 2 * (s * s * (t * od)) + s * (t * t * dd);
    let s3 = s * s * s;
    // s q = x - eps
    assert(s * q == x - eps) by (nonlinear_arith)
        requires
            q == oc + dt,
            x == s * oc + d * t,
            eps == d * t - s * dt,
    ;
    let sq = s * q;
    assert(sq * sq == x * x - 2 * (x * eps) + eps * eps) by (nonlinear_arith)
        requires
            sq == x - eps,
    ;
    assert(sq * sq == s * s * (q * q)) by (nonlinear_arith)
        requires
            sq == s * q,
    ;
    assert(x * x == m) by {
        let a1 = s * oc;
        let a2 = d * t;
        assert(x * x == a1 * a1 + 2 * (a1 * a2) + a2 * a2) by (nonlinear_arith)
            requires
                x == a1 + a2,
        ;
        assert(a1 * a1 == s * s * (oc * oc)) by (nonlinear_arith)
            requires
                a1 == s * oc,
        ;
        assert(a1 * a2 == s * (t * (oc * d))) by (nonlinear_arith)
            requires
                a1 == s * oc,
                a2 == d * t,
        ;
        assert(a2 * a2 == t * t * (d * d)) by (nonlinear_arith)
            requires
                a2 == d * t,
        ;
    }
    assert(s3 * qq == s * s * (q * q) - s * s * r) by (nonlinear_arith)
        requires
            r == q * q - s * qq,
            s3 == s * s * s,
    ;
    // the computed square against the exact polynomial
    assert(-(0x500 * (s * s)) <= x <= 0x500 * (s * s)) by (nonlinear_arith)
        requires
            x == s * oc + d * t,
            -0x100 * s <= oc <= 0x100 * s,
            -0x8 * s <= d <= 0x8 * s,
            -0x80 * s <= t <= 0x80 * s,
            s == 0x1_0000_0000,
    ;
    assert(-(0x500 * s3) <= x * eps <= 0x500 * s3) by (nonlinear_arith)
        requires
            -(0x500 * (s * s)) <= x <= 0x500 * (s * s),
            -s < eps < s,
            s3 == s * s * s,
            s == 0x1_0000_0000,
    ;
    assert(0 <= eps * eps <= s3) by (nonlinear_arith)
        requires
            -s < eps < s,
            s3 == s * s * s,
            s == 0x1_0000_0000,
    ;
    assert(0 <= s * s * r <= s3) by (nonlinear_arith)
        requires
            0 <= r < s,
            s3 == s * s * s,
            s == 0x1_0000_0000,
    ;
    assert(-(2562 * s3) <= s3 * qq - m <= 2562 * s3);
    // the exact polynomial against the computed coefficients
    let ro = oc * oc - s * oo;
    let rh = oc * d - s * od;
    let ra = d * d - s * dd;
    assert(m - target == s * s * ro + 2 * (s * (t * rh)) + t * t * ra) by {
        assert(s * s * (oc * oc) == s3 * oo + s * s * ro) by (nonlinear_arith)
            requires
                ro == oc * oc - s * oo,
                s3 == s * s * s,
        ;
        assert(s * (t * (oc * d)) == s * s * (t * od) + s * (t * rh)) by (nonlinear_arith)
            requires
                rh == oc * d - s * od,
        ;
        assert(t * t * (d * d) == s * (t * t * dd) + t * t * ra) by (nonlinear_arith)
            requires
                ra == d * d - s * dd,
        ;
    }
    assert(0 <= s * s * ro <= s3) by (nonlinear_arith)
        requires
            0 <= ro < s,
            s3 == s * s * s,
            s == 0x1_0000_0000,
    ;
    assert(-(0x80 * s3) <= s * (t * rh) <= 0x80 * s3) by (nonlinear_arith)
        requires
            -s < rh < s,
            -0x80 * s <= t <= 0x80 * s,
            s3 == s * s * s,
            s == 0x1_0000_0000,
    ;
    assert(0 <= t * t * ra <= 0x4000 * s3) by (nonlinear_arith)
        requires
            0 <= ra < s,
            -0x80 * s <= t <= 0x80 * s,
            s3 == s * s * s,
            s == 0x1_0000_0000,
    ;
    assert(-(16641 * s3) <= m - target <= 16641 * s3);
}

/// The product of two numbers of bounded size: it is not clamped, and it
/// misses the exact product by less than one unit, from below if the exact
/// product is not negative.
proof fn lemma_times_within(a: Fixed, b: Fixed, ba: int, bb: int)
    requires
        0 <= ba,
        0 <= bb,
        ba * bb <= 0x7fff_ffff,
        -ba * 0x1_0000_0000 <= a.raw <= ba * 0x1_0000_0000,
        -bb * 0x1_0000_0000 <= b.raw <= bb * 0x1_0000_0000,
    ensures
        -(ba * bb) * 0x1_0000_0000 <= a.times(b).raw <= (ba * bb) * 0x1_0000_0000,
        -0x1_0000_0000 < a.raw * b.raw - 0x1_0000_0000 * a.times(b).raw < 0x1_0000_0000,
        a.raw * b.raw >= 0 ==> 0x1_0000_0000 * a.times(b).raw <= a.raw * b.raw,
{
    let s = 0x1_0000_0000int;
    let p = a.raw * b.raw;
    let m = ba * bb;
    assert(-(m * (s * s)) <= p <= m * (s * s)) by (nonlinear_arith)
        requires
            p == a.raw * b.raw,
            m == ba * bb,
            0 <= ba,
            0 <= bb,
            -ba * s <= a.raw <= ba * s,
            -bb * s <= b.raw <= bb * s,
            s == 0x1_0000_0000,
    ;
    assert(m * (s * s) == (m * s) * s) by (nonlinear_arith);
    assert(m * s <= 0x7fff_ffff * s) by (nonlinear_arith)
        requires
            m <= 0x7fff_ffff,
            s == 0x1_0000_0000,
    ;
}

/// How far a point lies off a sphere, as the magnitude of the difference
/// between the squared length of the vector from the center to the point and
/// the squared radius, in raw counts.
pub open spec fn off_sphere(sphere: Sphere, point: Vec3<Fixed>) -> int {
    magnitude(
        point.minus(sphere.center).length_squared_spec().raw - sphere.radius.times(
            sphere.radius,
        ).raw,
    )
}

/// The ray and the sphere lie within the part of space where rounding is
/// under control: every coordinate of the ray's origin and of the center,
/// and the radius, within 128 of zero; every coordinate of the direction
/// within 8; and the direction not the zero vector.
pub open spec fn in_bounds(sphere: Sphere, ray: Ray) -> bool {
    &&& placed(sphere, ray.origin)
    &&& small(ray.direction.0, 0x8) && small(ray.direction.1, 0x8) && small(ray.direction.2, 0x8)
    &&& ray.direction.0.raw != 0 || ray.direction.1.raw != 0 || ray.direction.2.raw != 0
}

/// Every coordinate of the point and of the sphere's center, and the
/// radius, lie within 128 of zero.
pub open spec fn placed(sphere: Sphere, origin: Vec3<Fixed>) -> bool {
    &&& small(origin.0, 0x80) && small(origin.1, 0x80) && small(origin.2, 0x80)
    &&& small(sphere.center.0, 0x80) && small(sphere.center.1, 0x80) && small(sphere.center.2, 0x80)
    &&& small(sphere.radius, 0x80)
}

/// The number lies within `bound` of zero.
pub open spec fn small(x: Fixed, bound: int) -> bool {
    -bound * 0x1_0000_0000 <= x.raw <= bound * 0x1_0000_0000
}

/// The coefficients of the quadratic as they are computed: none is
/// clamped, and the two products in the discriminant miss the exact
/// products by less than one unit.
proof fn lemma_coefficients(sphere: Sphere, origin: Vec3<Fixed>, u: Vec3<Fixed>) -> (r: (int, int))
    requires
        placed(sphere, origin),
        small(u.0, 0x8) && small(u.1, 0x8) && small(u.2, 0x8),
    ensures
        0 <= u.length_squared_spec().raw <= 0xc0 * 0x1_0000_0000,
        small(origin.minus(sphere.center).dot_spec(u), 0x1800),
        0x1_0000_0000 * r.0 <= origin.minus(sphere.center).dot_spec(u).raw * origin.minus(
            sphere.center,
        ).dot_spec(u).raw < 0x1_0000_0000 * r.0 + 0x1_0000_0000,
        -0x1_0000_0000 < u.length_squared_spec().raw * origin.minus(
            sphere.center,
        ).length_squared_spec().minus(sphere.radius.times(sphere.radius)).raw - 0x1_0000_0000 * r.1
            < 0x1_0000_0000,
        sphere.discriminant_along(origin, u).raw == r.0 - r.1,
        sphere.discriminant_along(origin, u).raw <= 0x800_0000 * 0x1_0000_0000,
{
    let s = 0x1_0000_0000int;
    let o = origin;
    let c = sphere.center;
    let d = u;
    let rad = sphere.radius;
    // the coefficients
    let oc = o.minus(c);
    assert(oc.0.raw == o.0.raw - c.0.raw && oc.1.raw == o.1.raw - c.1.raw && oc.2.raw == o.2.raw
        - c.2.raw);
    lemma_times_within(d.0, d.0, 8, 8);
    lemma_times_within(d.1, d.1, 8, 8);
    lemma_times_within(d.2, d.2, 8, 8);
    let dd0 = d.0.times(d.0).raw as int;
    let dd1 = d.1.times(d.1).raw as int;
    let dd2 = d.2.times(d.2).raw as int;
    assert(d.0.raw * d.0.raw >= 0 && d.1.raw * d.1.raw >= 0 && d.2.raw * d.2.raw >= 0)
        by (nonlinear_arith);
    let a = d.length_squared_spec();
    assert(a.raw == dd0 + dd1 + dd2);

    lemma_times_within(oc.0, d.0, 0x100, 8);
    lemma_times_within(oc.1, d.1, 0x100, 8);
    lemma_times_within(oc.2, d.2, 0x100, 8);
    let od0 = oc.0.times(d.0).raw as int;
    let od1 = oc.1.times(d.1).raw as int;
    let od2 = oc.2.times(d.2).raw as int;
    let half_b = oc.dot_spec(d);
    assert(half_b.raw == od0 + od1 + od2);

    lemma_times_within(oc.0, oc.0, 0x100, 0x100);
    lemma_times_within(oc.1, oc.1, 0x100, 0x100);
    lemma_times_within(oc.2, oc.2, 0x100, 0x100);
    let oo0 = oc.0.times(oc.0).raw as int;
    let oo1 = oc.1.times(oc.1).raw as int;
    let oo2 = oc.2.times(oc.2).raw as int;
    assert(oc.0.raw * oc.0.raw >= 0 && oc.1.raw * oc.1.raw >= 0 && oc.2.raw * oc.2.raw >= 0)
        by (nonlinear_arith);
    lemma_times_within(rad, rad, 0x80, 0x80);
    let rr = rad.times(rad).raw as int;
    assert(rad.raw * rad.raw >= 0) by (nonlinear_arith);
    let cc = oc.length_squared_spec().minus(rad.times(rad));
    assert(cc.raw == oo0 + oo1 + oo2 - rr);

    // the discriminant and its square root
    lemma_times_within(half_b, half_b, 0x1800, 0x1800);
    let hh = half_b.times(half_b).raw as int;
    assert(half_b.raw * half_b.raw >= 0) by (nonlinear_arith);
    lemma_times_within(a, cc, 0xc0, 0x30000);
    let ac = a.times(cc).raw as int;
    let disc = sphere.discriminant_along(origin, u);
    assert(disc == half_b.times(half_b).minus(a.times(cc)));
    assert(disc.raw == hh - ac);
    (hh, ac)
}

/// The squared distance from the center to the point at `travel` along
/// `u`, as it is computed, against the residual of the quadratic there.
///
/// With `k` the residual `a t^2 + 2 s hb t + s^2 cc` in the computed
/// coefficients, `s^3` times the difference between the squared distance and
/// the squared radius differs from `s k` by at most `57609 s^3`.
proof fn lemma_point_residual(sphere: Sphere, origin: Vec3<Fixed>, u: Vec3<Fixed>, travel: Fixed) -> (k:
    int)
    requires
        placed(sphere, origin),
        small(u.0, 0x8) && small(u.1, 0x8) && small(u.2, 0x8),
        small(travel, 0x80),
    ensures
        k == u.length_squared_spec().raw * (travel.raw * travel.raw) + 2 * (0x1_0000_0000 * (
        travel.raw * origin.minus(sphere.center).dot_spec(u).raw)) + 0x1_0000_0000 * 0x1_0000_0000
            * origin.minus(sphere.center).length_squared_spec().minus(
            sphere.radius.times(sphere.radius),
        ).raw,
        -57609 * (0x1_0000_0000 * 0x1_0000_0000 * 0x1_0000_0000) <= 0x1_0000_0000 * 0x1_0000_0000
            * 0x1_0000_0000 * (origin.plus(u.scale(travel)).minus(
            sphere.center,
        ).length_squared_spec().raw - sphere.radius.times(sphere.radius).raw) - 0x1_0000_0000 * k
            <= 57609 * (0x1_0000_0000 * 0x1_0000_0000 * 0x1_0000_0000),
{
    let s = 0x1_0000_0000int;
    let o = origin;
    let c = sphere.center;
    let d = u;
    let rad = sphere.radius;
    let root = travel;
    let t = root.raw as int;
    // the coefficients
    let oc = o.minus(c);
    assert(oc.0.raw == o.0.raw - c.0.raw && oc.1.raw == o.1.raw - c.1.raw && oc.2.raw == o.2.raw
        - c.2.raw);
    lemma_times_within(d.0, d.0, 8, 8);
    lemma_times_within(d.1, d.1, 8, 8);
    lemma_times_within(d.2, d.2, 8, 8);
    let dd0 = d.0.times(d.0).raw as int;
    let dd1 = d.1.times(d.1).raw as int;
    let dd2 = d.2.times(d.2).raw as int;
    assert(d.0.raw * d.0.raw >= 0 && d.1.raw * d.1.raw >= 0 && d.2.raw * d.2.raw >= 0)
        by (nonlinear_arith);
    let a = d.length_squared_spec();
    assert(a.raw == dd0 + dd1 + dd2);

    lemma_times_within(oc.0, d.0, 0x100, 8);
    lemma_times_within(oc.1, d.1, 0x100, 8);
    lemma_times_within(oc.2, d.2, 0x100, 8);
    let od0 = oc.0.times(d.0).raw as int;
    let od1 = oc.1.times(d.1).raw as int;
    let od2 = oc.2.times(d.2).raw as int;
    let half_b = oc.dot_spec(d);
    assert(half_b.raw == od0 + od1 + od2);

    lemma_times_within(oc.0, oc.0, 0x100, 0x100);
    lemma_times_within(oc.1, oc.1, 0x100, 0x100);
    lemma_times_within(oc.2, oc.2, 0x100, 0x100);
    let oo0 = oc.0.times(oc.0).raw as int;
    let oo1 = oc.1.times(oc.1).raw as int;
    let oo2 = oc.2.times(oc.2).raw as int;
    assert(oc.0.raw * oc.0.raw >= 0 && oc.1.raw * oc.1.raw >= 0 && oc.2.raw * oc.2.raw >= 0)
        by (nonlinear_arith);
    lemma_times_within(rad, rad, 0x80, 0x80);
    let rr = rad.times(rad).raw as int;
    assert(rad.raw * rad.raw >= 0) by (nonlinear_arith);
    let cc = oc.length_squared_spec().minus(rad.times(rad));
    assert(cc.raw == oo0 + oo1 + oo2 - rr);

    let k = a.raw * (t * t) + 2 * (s * (t * half_b.raw)) + s * s * cc.raw;
    // the point
    lemma_times_within(d.0, root, 8, 0x80);
    lemma_times_within(d.1, root, 8, 0x80);
    lemma_times_within(d.2, root, 8, 0x80);
    let dt0 = d.0.times(root).raw as int;
    let dt1 = d.1.times(root).raw as int;
    let dt2 = d.2.times(root).raw as int;
    let point = origin.plus(u.scale(root));
    let q = point.minus(c);
    assert(q.0.raw == oc.0.raw + dt0 && q.1.raw == oc.1.raw + dt1 && q.2.raw == oc.2.raw + dt2);
    lemma_times_within(q.0, q.0, 0x500, 0x500);
    lemma_times_within(q.1, q.1, 0x500, 0x500);
    lemma_times_within(q.2, q.2, 0x500, 0x500);
    let qq0 = q.0.times(q.0).raw as int;
    let qq1 = q.1.times(q.1).raw as int;
    let qq2 = q.2.times(q.2).raw as int;
    assert(q.0.raw * q.0.raw >= 0 && q.1.raw * q.1.raw >= 0 && q.2.raw * q.2.raw >= 0)
        by (nonlinear_arith);
    let len = q.length_squared_spec();
    assert(len.raw == qq0 + qq1 + qq2);

    lemma_coordinate(s, oc.0.raw as int, d.0.raw as int, t, dt0, qq0, oo0, od0, dd0);
    lemma_coordinate(s, oc.1.raw as int, d.1.raw as int, t, dt1, qq1, oo1, od1, dd1);
    lemma_coordinate(s, oc.2.raw as int, d.2.raw as int, t, dt2, qq2, oo2, od2, dd2);

    // the sum of the three shares is the residual
    let s3 = s * s * s;
    let target0 = s3 * oo0 + 2 * (s * s * (t * od0)) + s * (t * t * dd0);
    let target1 = s3 * oo1 + 2 * (s * s * (t * od1)) + s * (t * t * dd1);
    let target2 = s3 * oo2 + 2 * (s * s * (t * od2)) + s * (t * t * dd2);
    assert(target0 + target1 + target2 == s * k + s3 * rr) by {
        let oo = oo0 + oo1 + oo2;
        assert(s3 * oo0 + s3 * oo1 + s3 * oo2 == s3 * oo) by (nonlinear_arith)
            requires
                oo == oo0 + oo1 + oo2,
        ;
        assert(s * s * (t * od0) + s * s * (t * od1) + s * s * (t * od2) == s * (s * (t
            * half_b.raw))) by (nonlinear_arith)
            requires
                half_b.raw == od0 + od1 + od2,
        ;
        assert(s * (t * t * dd0) + s * (t * t * dd1) + s * (t * t * dd2) == s * (a.raw * (t * t)))
            by (nonlinear_arith)
            requires
                a.raw == dd0 + dd1 + dd2,
        ;
        assert(s * k == s * (a.raw * (t * t)) + 2 * (s * (s * (t * half_b.raw))) + s3 * cc.raw)
            by (nonlinear_arith)
            requires
                k == a.raw * (t * t) + 2 * (s * (t * half_b.raw)) + s * s * cc.raw,
                s3 == s * s * s,
        ;
        assert(s3 * cc.raw == s3 * oo - s3 * rr) by (nonlinear_arith)
            requires
                cc.raw == oo - rr,
        ;
    }
    assert(s3 * len.raw == s3 * qq0 + s3 * qq1 + s3 * qq2) by (nonlinear_arith)
        requires
            len.raw == qq0 + qq1 + qq2,
    ;
    let diff = len.raw - rr;
    assert(s3 * diff == s3 * len.raw - s3 * rr) by (nonlinear_arith)
        requires
            diff == len.raw - rr,
    ;
    k
}

/// The point at a root of the quadratic along `u` lies close to the sphere.
proof fn lemma_travel_on_sphere(sphere: Sphere, origin: Vec3<Fixed>, u: Vec3<Fixed>, far: bool)
    requires
        placed(sphere, origin),
        small(u.0, 0x8) && small(u.1, 0x8) && small(u.2, 0x8),
        16 * u.length_squared_spec().raw >= ONE_RAW,
        sphere.discriminant_along(origin, u).raw >= 0,
        small(sphere.travel_along(origin, u, far), 0x80),
    ensures
        off_sphere(sphere, origin.plus(u.scale(sphere.travel_along(origin, u, far)))) <= 631049,
{
    let s = 0x1_0000_0000int;
    let root = sphere.travel_along(origin, u, far);
    let t = root.raw as int;
    let oc = origin.minus(sphere.center);
    let a = u.length_squared_spec();
    let half_b = oc.dot_spec(u);
    let cc = oc.length_squared_spec().minus(sphere.radius.times(sphere.radius));
    let disc = sphere.discriminant_along(origin, u);
    let (hh, ac) = lemma_coefficients(sphere, origin, u);
    let sqrtd = disc.sqrt_spec();
    let sq = sqrtd.raw as int;
    lemma_sqrt_spec(disc);
    assert(sq * sq <= s * disc.raw < (sq + 1) * (sq + 1)) by {
        if disc.raw > 0 {
            assert(is_floor_sqrt(disc.raw * ONE_RAW, sq));
            assert(disc.raw * ONE_RAW == s * disc.raw);
        } else {
            assert(sq == 0 && disc.raw == 0);
            assert(sq * sq == 0 && (sq + 1) * (sq + 1) == 1 && s * disc.raw == 0) by (nonlinear_arith)
                requires
                    sq == 0,
                    disc.raw == 0,
            ;
        }
    }
    assert(sq <= 0x4000 * s) by {
        if sq > 0x4000 * s {
            assert(sq * sq > 0x4000 * s * (0x4000 * s)) by (nonlinear_arith)
                requires
                    sq > 0x4000 * s,
                    s == 0x1_0000_0000,
            ;
            assert(s * disc.raw <= s * (0x800_0000 * s)) by (nonlinear_arith)
                requires
                    disc.raw <= 0x800_0000 * s,
                    s == 0x1_0000_0000,
            ;
        }
    }

    // the root
    let num = if far {
        half_b.negate().plus(sqrtd)
    } else {
        half_b.negate().minus(sqrtd)
    };
    assert(num.raw == -half_b.raw - sq || num.raw == -half_b.raw + sq);
    assert(root == num.over(a));
    assert(a.raw > 0);
    let n = num.raw * s;
    assert(t == quot(n, a.raw as int));
    assert(-a.raw < t * a.raw - n < a.raw) by {
        if n >= 0 {
            vstd::arithmetic::div_mod::lemma_fundamental_div_mod(n, a.raw as int);
            vstd::arithmetic::div_mod::lemma_mod_bound(n, a.raw as int);
            assert(a.raw * (n / (a.raw as int)) == (n / (a.raw as int)) * a.raw) by (nonlinear_arith);
        } else {
            vstd::arithmetic::div_mod::lemma_fundamental_div_mod(-n, a.raw as int);
            vstd::arithmetic::div_mod::lemma_mod_bound(-n, a.raw as int);
            assert(a.raw * ((-n) / (a.raw as int)) == -(-((-n) / (a.raw as int)) * a.raw))
                by (nonlinear_arith);
        }
    }
    let k = lemma_residual_of_root(
        s,
        a.raw as int,
        t,
        half_b.raw as int,
        cc.raw as int,
        hh,
        ac,
        disc.raw as int,
        sq,
        num.raw as int,
    );

    let k2 = lemma_point_residual(sphere, origin, u, root);
    assert(k2 == k);
    let s3 = s * s * s;
    let rr = sphere.radius.times(sphere.radius).raw as int;
    let len = origin.plus(u.scale(root)).minus(sphere.center).length_squared_spec();
    assert(s * k <= (35 * 0x4000) * s3 && s * k >= -(35 * 0x4000) * s3) by (nonlinear_arith)
        requires
            -(35 * 0x4000) * (s * s) <= k <= (35 * 0x4000) * (s * s),
            s3 == s * s * s,
            s == 0x1_0000_0000,
    ;
    let diff = len.raw - rr;
    assert(s3 * diff == s3 * len.raw - s3 * rr) by (nonlinear_arith)
        requires
            diff == len.raw - rr,
    ;
    assert(-(631049 * s3) <= s3 * diff <= 631049 * s3);
    assert(-631049 <= diff <= 631049) by (nonlinear_arith)
        requires
            -(631049 * s3) <= s3 * diff <= 631049 * s3,
            s3 == s * s * s,
            s == 0x1_0000_0000,
    ;
}

/// A quotient rounded toward zero, times the divisor, misses the dividend
/// by less than the divisor.
proof fn lemma_quot_remainder(n: int, d: int)
    requires
        d > 0,
    ensures
        -d < quot(n, d) * d - n < d,
{
    if n >= 0 {
        vstd::arithmetic::div_mod::lemma_fundamental_div_mod(n, d);
        vstd::arithmetic::div_mod::lemma_mod_bound(n, d);
        assert(d * (n / d) == (n / d) * d) by (nonlinear_arith);
    } else {
        vstd::arithmetic::div_mod::lemma_fundamental_div_mod(-n, d);
        vstd::arithmetic::div_mod::lemma_mod_bound(-n, d);
        assert(d * ((-n) / d) == -(-((-n) / d) * d)) by (nonlinear_arith);
    }
}

/// The unit vector along a vector that is not zero and has coordinates
/// within 8 is at least half as long as a unit vector, and each of its
/// coordinates times the length misses the coordinate it came from by less
/// than the length.
proof fn lemma_unit_of_direction(d: Vec3<Fixed>)
    requires
        small(d.0, 0x8) && small(d.1, 0x8) && small(d.2, 0x8),
        d.0.raw != 0 || d.1.raw != 0 || d.2.raw != 0,
    ensures
        0 < d.length_spec().raw <= 14 * 0x1_0000_0000,
        small(d.unit_spec().0, 1) && small(d.unit_spec().1, 1) && small(d.unit_spec().2, 1),
        16 * d.unit_spec().length_squared_spec().raw >= ONE_RAW,
        -d.length_spec().raw < d.unit_spec().0.raw * d.length_spec().raw - d.0.raw * 0x1_0000_0000
            < d.length_spec().raw,
        -d.length_spec().raw < d.unit_spec().1.raw * d.length_spec().raw - d.1.raw * 0x1_0000_0000
            < d.length_spec().raw,
        -d.length_spec().raw < d.unit_spec().2.raw * d.length_spec().raw - d.2.raw * 0x1_0000_0000
            < d.length_spec().raw,
{
    let s = 0x1_0000_0000int;
    let len = d.length_spec().raw as int;
    let u = d.unit_spec();
    let sum = d.0.raw * d.0.raw + d.1.raw * d.1.raw + d.2.raw * d.2.raw;
    lemma_hypot(d.0, d.1, d.2);
    lemma_unit_bounded(d);
    assert(sum <= 192 * (s * s)) by (nonlinear_arith)
        requires
            sum == d.0.raw * d.0.raw + d.1.raw * d.1.raw + d.2.raw * d.2.raw,
            -8 * s <= d.0.raw <= 8 * s,
            -8 * s <= d.1.raw <= 8 * s,
            -8 * s <= d.2.raw <= 8 * s,
    ;
    assert(sum >= 0) by (nonlinear_arith)
        requires
            sum == d.0.raw * d.0.raw + d.1.raw * d.1.raw + d.2.raw * d.2.raw,
    ;
    let r = lemma_floor_sqrt_exists(sum);
    assert(r <= 14 * s) by (nonlinear_arith)
        requires
            r * r <= sum,
            sum <= 192 * (s * s),
            s == 0x1_0000_0000,
            0 <= r,
    ;
    assert(len == r);
    assert(u.0.raw == quot(d.0.raw * s, len));
    assert(u.1.raw == quot(d.1.raw * s, len));
    assert(u.2.raw == quot(d.2.raw * s, len));
    lemma_quot_remainder(d.0.raw * s, len);
    lemma_quot_remainder(d.1.raw * s, len);
    lemma_quot_remainder(d.2.raw * s, len);
    // one coordinate is at least half the length
    let m0 = magnitude(d.0.raw as int);
    let m1 = magnitude(d.1.raw as int);
    let m2 = magnitude(d.2.raw as int);
    assert(2 * m0 >= len || 2 * m1 >= len || 2 * m2 >= len) by (nonlinear_arith)
        requires
            len * len <= sum,
            sum == d.0.raw * d.0.raw + d.1.raw * d.1.raw + d.2.raw * d.2.raw,
            m0 == d.0.raw || m0 == -d.0.raw,
            m1 == d.1.raw || m1 == -d.1.raw,
            m2 == d.2.raw || m2 == -d.2.raw,
            m0 >= 0,
            m1 >= 0,
            m2 >= 0,
            len >= 1,
    ;
    lemma_times_within(u.0, u.0, 1, 1);
    lemma_times_within(u.1, u.1, 1, 1);
    lemma_times_within(u.2, u.2, 1, 1);
    assert(u.0.raw * u.0.raw >= 0 && u.1.raw * u.1.raw >= 0 && u.2.raw * u.2.raw >= 0)
        by (nonlinear_arith);
    if 2 * m0 >= len {
        lemma_long_coordinate(d.0.raw as int, u.0.raw as int, len);
    } else if 2 * m1 >= len {
        lemma_long_coordinate(d.1.raw as int, u.1.raw as int, len);
    } else {
        lemma_long_coordinate(d.2.raw as int, u.2.raw as int, len);
    }
}

/// A coordinate at least half as long as its vector gives a coordinate of
/// the unit vector that is at least one half, whose square is at least one
/// quarter.
proof fn lemma_long_coordinate(d: int, u: int, len: int)
    requires
        len > 0,
        2 * magnitude(d) >= len,
        -len < u * len - d * 0x1_0000_0000 < len,
    ensures
        u * u >= 0x4000_0000 * 0x1_0000_0000,
{
    let s = 0x1_0000_0000int;
    let m = magnitude(d);
    let w = magnitude(u);
    assert(w * len > m * s - len) by (nonlinear_arith)
        requires
            -len < u * len - d * s < len,
            m == d || m == -d,
            w == u || w == -u,
            w >= 0,
            m >= 0,
            len > 0,
    ;
    assert(2 * w >= s - 1) by (nonlinear_arith)
        requires
            w * len > m * s - len,
            2 * m >= len,
            len > 0,
            s == 0x1_0000_0000,
    ;
    assert(2 * w >= s);
    assert(w * w >= 0x4000_0000 * 0x1_0000_0000) by (nonlinear_arith)
        requires
            2 * w >= 0x1_0000_0000,
    ;
    assert(w * w == u * u) by (nonlinear_arith)
        requires
            w == u || w == -u,
    ;
}

/// Scaling the root back by the length of the direction moves no
/// coordinate of the point far.
///
/// All quantities are raw counts, and `s` is 2^32. With `d` a coordinate of
/// the direction, `u` the same coordinate of the unit direction, `len` the
/// length, `travel` the root along the unit direction and `t` the root in
/// the ray parameter, `d t` and `u travel` differ by at most `136 s`.
proof fn lemma_scaled_back(s: int, d: int, u: int, len: int, travel: int, t: int)
    requires
        s == 0x1_0000_0000,
        len > 0,
        -len < t * len - travel * s < len,
        -len < u * len - d * s < len,
        -8 * s <= d <= 8 * s,
        -0x80 * s <= travel <= 0x80 * s,
    ensures
        -136 * s <= d * t - u * travel <= 136 * s,
{
    let r1 = travel * s - t * len;
    let r2 = d * s - u * len;
    let diff = d * t - u * travel;
    assert(len * diff == travel * r2 - d * r1) by (nonlinear_arith)
        requires
            r1 == travel * s - t * len,
            r2 == d * s - u * len,
            diff == d * t - u * travel,
    ;
    assert(-(0x80 * s * len) <= travel * r2 <= 0x80 * s * len) by (nonlinear_arith)
        requires
            -len < r2 < len,
            -0x80 * s <= travel <= 0x80 * s,
            s == 0x1_0000_0000,
    ;
    assert(-(8 * s * len) <= d * r1 <= 8 * s * len) by (nonlinear_arith)
        requires
            -len < r1 < len,
            -8 * s <= d <= 8 * s,
            s == 0x1_0000_0000,
    ;
    assert(-136 * s <= diff <= 136 * s) by (nonlinear_arith)
        requires
            -(136 * s * len) <= len * diff <= 136 * s * len,
            len > 0,
            s == 0x1_0000_0000,
    ;
}

/// Two numbers that are close have squares that are close.
///
/// With `q` and `qu` raw counts that differ by at most 137, `qu` within
/// 384, and `qq` and `qqu` their computed squares, the squares differ by at
/// most 105354.
proof fn lemma_close_squares(q: Fixed, qu: Fixed)
    requires
        small(qu, 0x180),
        -137 <= q.raw - qu.raw <= 137,
    ensures
        -105354 <= q.times(q).raw - qu.times(qu).raw <= 105354,
{
    let s = 0x1_0000_0000int;
    lemma_times_within(q, q, 0x181, 0x181);
    lemma_times_within(qu, qu, 0x180, 0x180);
    let x = q.raw * q.raw;
    let y = qu.raw * qu.raw;
    let e = q.raw - qu.raw;
    assert(x >= 0 && y >= 0) by (nonlinear_arith)
        requires
            x == q.raw * q.raw,
            y == qu.raw * qu.raw,
    ;
    assert(x - y == e * (2 * qu.raw + e)) by (nonlinear_arith)
        requires
            x == q.raw * q.raw,
            y == qu.raw * qu.raw,
            e == q.raw - qu.raw,
    ;
    assert(-(137 * (769 * s)) <= e * (2 * qu.raw + e) <= 137 * (769 * s)) by (nonlinear_arith)
        requires
            -137 <= e <= 137,
            -0x180 * s <= qu.raw <= 0x180 * s,
            s == 0x1_0000_0000,
    ;
}

/// One coordinate of the vector from the center to the point of the ray at
/// the root, against the same coordinate for the unit direction and the
/// root along it: their computed squares differ by at most 105354 raw
/// counts, and neither square is clamped.
proof fn lemma_shifted_coordinate(
    o: Fixed,
    c: Fixed,
    d: Fixed,
    u: Fixed,
    len: Fixed,
    travel: Fixed,
    root: Fixed,
) -> (r: (int, int))
    requires
        small(o, 0x80),
        small(c, 0x80),
        small(d, 0x8),
        small(u, 1),
        small(travel, 0x80),
        len.raw > 0,
        -len.raw < root.raw * len.raw - travel.raw * 0x1_0000_0000 < len.raw,
        -len.raw < u.raw * len.raw - d.raw * 0x1_0000_0000 < len.raw,
    ensures
        r.0 == o.plus(d.times(root)).minus(c).times(o.plus(d.times(root)).minus(c)).raw,
        r.1 == o.plus(u.times(travel)).minus(c).times(o.plus(u.times(travel)).minus(c)).raw,
        -105354 <= r.0 - r.1 <= 105354,
        0 <= r.0 <= 0x181 * 0x181 * 0x1_0000_0000,
        0 <= r.1 <= 0x180 * 0x180 * 0x1_0000_0000,
{
    let s = 0x1_0000_0000int;
    lemma_scaled_back(s, d.raw as int, u.raw as int, len.raw as int, travel.raw as int, root.raw as int);
    lemma_times_within(u, travel, 1, 0x80);
    let dt = d.times(root);
    let ut = u.times(travel);
    assert(-137 <= dt.raw - ut.raw <= 137);
    let q = o.plus(dt).minus(c);
    let qu = o.plus(ut).minus(c);
    assert(qu.raw == o.raw - c.raw + ut.raw);
    assert(q.raw == o.raw - c.raw + dt.raw);
    lemma_close_squares(q, qu);
    lemma_times_within(q, q, 0x181, 0x181);
    lemma_times_within(qu, qu, 0x180, 0x180);
    assert(q.raw * q.raw >= 0 && qu.raw * qu.raw >= 0) by (nonlinear_arith);
    (q.times(q).raw as int, qu.times(qu).raw as int)
}

/// Both roots of the quadratic are where the ray's line meets the sphere.
/// Where the ray and the sphere are in bounds, the discriminant is not
/// negative, the root, smaller or larger, lies within 128 of the ray's
/// origin along the unit direction and is not clamped as a ray parameter,
/// the point of the ray at the root lies as close to the sphere as a hit
/// point does.
pub proof fn lemma_root_on_sphere(sphere: Sphere, ray: Ray, far: bool)
    requires
        in_bounds(sphere, ray),
        sphere.discriminant_spec(ray).raw >= 0,
        small(sphere.travel_along(ray.origin, ray.direction.unit_spec(), far), 0x80),
        -MAX_RAW < sphere.travel_along(ray.origin, ray.direction.unit_spec(), far).over(
            ray.direction.length_spec(),
        ).raw < MAX_RAW,
    ensures
        off_sphere(
            sphere,
            ray.at_spec(
                sphere.travel_along(ray.origin, ray.direction.unit_spec(), far).over(
                    ray.direction.length_spec(),
                ),
            ),
        ) <= 0x10_0000,
{
    let s = 0x1_0000_0000int;
    let o = ray.origin;
    let c = sphere.center;
    let d = ray.direction;
    let u = d.unit_spec();
    let len = d.length_spec();
    let travel = sphere.travel_along(o, u, far);
    let root = travel.over(len);
    lemma_unit_of_direction(d);
    lemma_travel_on_sphere(sphere, o, u, far);
    assert(root.raw == quot(travel.raw * s, len.raw as int));
    lemma_quot_remainder(travel.raw * s, len.raw as int);
    let r0 = lemma_shifted_coordinate(o.0, c.0, d.0, u.0, len, travel, root);
    let r1 = lemma_shifted_coordinate(o.1, c.1, d.1, u.1, len, travel, root);
    let r2 = lemma_shifted_coordinate(o.2, c.2, d.2, u.2, len, travel, root);
    let q = ray.at_spec(root).minus(c);
    let qu = o.plus(u.scale(travel)).minus(c);
    assert(q.length_squared_spec().raw == r0.0 + r1.0 + r2.0);
    assert(qu.length_squared_spec().raw == r0.1 + r1.1 + r2.1);
}

/// A hit point on a sphere lies close to the sphere. Where the ray and the
/// sphere are in bounds and the hit lies within 127 of the ray's origin,
/// measured as the ray parameter times the length of the direction, the
/// squared length of the vector from the center to the hit point differs
/// from the squared radius by at most 2^20 units of 2^-32, which is 2^-12.
pub proof fn lemma_hit_point_on_sphere(sphere: Sphere, ray: Ray, range: Range<Fixed>)
    requires
        in_bounds(sphere, ray),
    ensures
        sphere.hit_spec(ray, range) matches Some(h) ==> (-MAX_RAW < h.dist.raw && small(
            h.dist.times(ray.direction.length_spec()),
            0x7f,
        ) ==> off_sphere(sphere, h.point) <= 0x10_0000),
{
    if let Some(h) = sphere.hit_spec(ray, range) {
        if -MAX_RAW < h.dist.raw && small(h.dist.times(ray.direction.length_spec()), 0x7f) {
            let far = h.dist != sphere.near_root_spec(ray);
            let s = 0x1_0000_0000int;
            let len = ray.direction.length_spec();
            let travel = sphere.travel_along(ray.origin, ray.direction.unit_spec(), far);
            lemma_unit_of_direction(ray.direction);
            assert(h.dist == travel.over(len));
            let t = h.dist.raw as int;
            assert(t == quot(travel.raw * s, len.raw as int));
            lemma_quot_remainder(travel.raw * s, len.raw as int);
            let p = t * len.raw;
            assert(-(127 * s * s + s) < p < 127 * s * s + s);
            assert(-0x80 * s <= travel.raw <= 0x80 * s) by (nonlinear_arith)
                requires
                    -len.raw < p - travel.raw * s < len.raw,
                    -(127 * s * s + s) < p < 127 * s * s + s,
                    0 < len.raw <= 14 * s,
                    s == 0x1_0000_0000,
            ;
            lemma_root_on_sphere(sphere, ray, far);
        }
    }
}

/// A ray that is found to miss a sphere's whole line does miss it. Where
/// the ray and the sphere are in bounds and the discriminant is negative,
/// no point of the ray's line within 128 of its origin lies inside the
/// sphere, but for rounding: at every such point the squared length of the
/// vector from the center is at least the squared radius less 2^16 units of
/// 2^-32, which is 2^-16.
pub proof fn lemma_miss_stays_outside(sphere: Sphere, ray: Ray, travel: Fixed)
    requires
        in_bounds(sphere, ray),
        sphere.discriminant_spec(ray).raw < 0,
        small(travel, 0x80),
    ensures
        ray.origin.plus(ray.direction.unit_spec().scale(travel)).minus(
            sphere.center,
        ).length_squared_spec().raw - sphere.radius.times(sphere.radius).raw >= -0x1_0000,
{
    let s = 0x1_0000_0000int;
    let o = ray.origin;
    let u = ray.direction.unit_spec();
    let t = travel.raw as int;
    let a = u.length_squared_spec().raw as int;
    let hb = o.minus(sphere.center).dot_spec(u).raw as int;
    let cc = o.minus(sphere.center).length_squared_spec().minus(
        sphere.radius.times(sphere.radius),
    ).raw as int;
    lemma_unit_of_direction(ray.direction);
    let (hh, ac) = lemma_coefficients(sphere, o, u);
    let k = lemma_point_residual(sphere, o, u, travel);
    lemma_complete_square(s, a, t, hb, cc);
    let w = a * t + s * hb;
    let e = hb * hb - a * cc;
    assert(e < s);
    assert(a * k > -(s * s * s)) by (nonlinear_arith)
        requires
            a * k == w * w - s * s * e,
            e < s,
            s == 0x1_0000_0000,
    ;
    assert(k > -(16 * (s * s))) by (nonlinear_arith)
        requires
            a * k > -(s * s * s),
            16 * a >= s,
            a > 0,
            s == 0x1_0000_0000,
    ;
    let s3 = s * s * s;
    let diff = o.plus(u.scale(travel)).minus(sphere.center).length_squared_spec().raw
        - sphere.radius.times(sphere.radius).raw;
    assert(s * k > -(16 * s3)) by (nonlinear_arith)
        requires
            k > -(16 * (s * s)),
            s3 == s * s * s,
            s == 0x1_0000_0000,
    ;
    assert(s3 * diff > -(57625 * s3));
    assert(diff > -57625) by (nonlinear_arith)
        requires
            s3 * diff > -(57625 * s3),
            s3 == s * s * s,
            s == 0x1_0000_0000,
    ;
}

/// The two roots bracket the part of the line that lies inside the sphere.
/// Where the ray and the sphere are in bounds and the discriminant is not
/// negative, a point of the ray's line within 128 of its origin that lies
/// inside the sphere by more than 2^-15 in squared distance lies between
/// the nearer and the farther root along the unit direction, to within 16
/// units of 2^-32.
pub proof fn lemma_inside_between_roots(sphere: Sphere, ray: Ray, travel: Fixed)
    requires
        in_bounds(sphere, ray),
        sphere.discriminant_spec(ray).raw >= 0,
        small(travel, 0x80),
        ray.origin.plus(ray.direction.unit_spec().scale(travel)).minus(
            sphere.center,
        ).length_squared_spec().raw - sphere.radius.times(sphere.radius).raw <= -0x2_0000,
    ensures
        sphere.near_travel_spec(ray).raw - 16 <= travel.raw <= sphere.far_travel_spec(ray).raw + 16,
{
    let s = 0x1_0000_0000int;
    let o = ray.origin;
    let u = ray.direction.unit_spec();
    let t = travel.raw as int;
    let a = u.length_squared_spec().raw as int;
    let half_b = o.minus(sphere.center).dot_spec(u);
    let hb = half_b.raw as int;
    let cc = o.minus(sphere.center).length_squared_spec().minus(
        sphere.radius.times(sphere.radius),
    ).raw as int;
    let disc = sphere.discriminant_along(o, u);
    lemma_unit_of_direction(ray.direction);
    let (hh, ac) = lemma_coefficients(sphere, o, u);
    let k = lemma_point_residual(sphere, o, u, travel);
    lemma_complete_square(s, a, t, hb, cc);
    let sqrtd = disc.sqrt_spec();
    let sq = sqrtd.raw as int;
    lemma_sqrt_spec(disc);
    assert(s * disc.raw < (sq + 1) * (sq + 1)) by {
        if disc.raw > 0 {
            assert(is_floor_sqrt(disc.raw * ONE_RAW, sq));
            assert(disc.raw * ONE_RAW == s * disc.raw);
        } else {
            assert((sq + 1) * (sq + 1) == 1 && s * disc.raw == 0) by (nonlinear_arith)
                requires
                    sq == 0,
                    disc.raw == 0,
            ;
        }
    }
    assert(sq <= 0x4000 * s) by {
        if sq > 0x4000 * s {
            assert(sq * sq > 0x4000 * s * (0x4000 * s)) by (nonlinear_arith)
                requires
                    sq > 0x4000 * s,
                    s == 0x1_0000_0000,
            ;
            assert(s * disc.raw <= s * (0x800_0000 * s)) by (nonlinear_arith)
                requires
                    disc.raw <= 0x800_0000 * s,
                    s == 0x1_0000_0000,
            ;
            if disc.raw > 0 {
                assert(is_floor_sqrt(disc.raw * ONE_RAW, sq));
                assert(disc.raw * ONE_RAW == s * disc.raw);
            }
        }
    }
    // the residual is well below zero
    let s3 = s * s * s;
    let diff = o.plus(u.scale(travel)).minus(sphere.center).length_squared_spec().raw
        - sphere.radius.times(sphere.radius).raw;
    assert(s3 * diff <= -0x2_0000 * s3) by (nonlinear_arith)
        requires
            diff <= -0x2_0000,
            s3 == s * s * s,
            s == 0x1_0000_0000,
    ;
    assert(s * k <= -73463 * s3);
    assert(k <= -73463 * (s * s)) by (nonlinear_arith)
        requires
            s * k <= -73463 * s3,
            s3 == s * s * s,
            s == 0x1_0000_0000,
    ;
    // so the square is below s^2 (sq + 1)^2
    let w = a * t + s * hb;
    let e = hb * hb - a * cc;
    assert(e < s * disc.raw + 2 * s);
    assert(a * k <= -(4591 * s3)) by (nonlinear_arith)
        requires
            k <= -73463 * (s * s),
            16 * a >= s,
            s3 == s * s * s,
            s == 0x1_0000_0000,
    ;
    assert(s * s * e < s * s * ((sq + 1) * (sq + 1)) + 2 * s3) by (nonlinear_arith)
        requires
            e < s * disc.raw + 2 * s,
            s * disc.raw < (sq + 1) * (sq + 1),
            s3 == s * s * s,
            s == 0x1_0000_0000,
    ;
    let top = s * (sq + 1);
    assert(top * top == s * s * ((sq + 1) * (sq + 1))) by (nonlinear_arith)
        requires
            top == s * (sq + 1),
    ;
    assert(w * w < top * top);
    assert(-top < w < top) by (nonlinear_arith)
        requires
            w * w < top * top,
            top > 0,
    ;
    // against the two roots
    let near_num = half_b.negate().minus(sqrtd);
    let far_num = half_b.negate().plus(sqrtd);
    assert(near_num.raw == -hb - sq && far_num.raw == -hb + sq);
    let q1 = quot(near_num.raw * s, a);
    let q2 = quot(far_num.raw * s, a);
    lemma_quot_remainder(near_num.raw * s, a);
    lemma_quot_remainder(far_num.raw * s, a);
    assert(sphere.near_travel_spec(ray) == near_num.over(u.length_squared_spec()));
    assert(sphere.far_travel_spec(ray) == far_num.over(u.length_squared_spec()));
    assert(t >= q1 - 16) by (nonlinear_arith)
        requires
            -a < q1 * a - (-hb - sq) * s < a,
            w == a * t + s * hb,
            -top < w,
            top == s * (sq + 1),
            16 * a >= s,
            a > 0,
            s == 0x1_0000_0000,
    ;
    assert(t <= q2 + 16) by (nonlinear_arith)
        requires
            -a < q2 * a - (-hb + sq) * s < a,
            w == a * t + s * hb,
            w < top,
            top == s * (sq + 1),
            16 * a >= s,
            a > 0,
            s == 0x1_0000_0000,
    ;
}

/// One coordinate's share of the squared length of a unit vector.
///
/// With `v` a coordinate of a vector of length `len`, `u` the same
/// coordinate of the unit vector and `s` = 2^32, `len^2 u^2` differs from
/// `s^2 v^2` by at most `2 s len^2 + len^2`.
proof fn lemma_unit_coordinate(s: int, v: int, u: int, len: int)
    requires
        s == 0x1_0000_0000,
        len > 0,
        -len <= v <= len,
        -len < u * len - v * s < len,
    ensures
        s * s * (v * v) - 2 * (s * (len * len)) <= len * len * (u * u) <= s * s * (v * v) + 2 * (s
            * (len * len)) + len * len,
{
    let r = v * s - u * len;
    let x = u * len;
    assert(x * x == s * s * (v * v) - 2 * (s * (v * r)) + r * r) by (nonlinear_arith)
        requires
            x == v * s - r,
    ;
    assert(x * x == len * len * (u * u)) by (nonlinear_arith)
        requires
            x == u * len,
    ;
    assert(-(len * len) <= v * r <= len * len) by (nonlinear_arith)
        requires
            -len <= v <= len,
            -len < r < len,
    ;
    assert(0 <= r * r <= len * len) by (nonlinear_arith)
        requires
            -len < r < len,
    ;
    assert(-(s * (len * len)) <= s * (v * r) <= s * (len * len)) by (nonlinear_arith)
        requires
            -(len * len) <= v * r <= len * len,
            s == 0x1_0000_0000,
    ;
}

/// A unit vector has length one, as nearly as the vector it came from
/// allows. For a vector that is not zero and whose length `len` is not
/// clamped, the unit vector is at least `1 - 2^-30` long, and its length
/// times `len` is at most `len + 1` plus `2^-30 len`: so at most
/// `1 + 2^-15` for a vector at least `2^-16` long.
pub proof fn lemma_unit_length(v: Vec3<Fixed>)
    requires
        v.0.raw != 0 || v.1.raw != 0 || v.2.raw != 0,
        v.length_spec().raw < MAX_RAW,
    ensures
        v.unit_spec().length_spec().raw >= ONE_RAW - 4,
        v.unit_spec().length_spec().raw * v.length_spec().raw <= ONE_RAW * (v.length_spec().raw + 1)
            + 4 * v.length_spec().raw,
        v.length_spec().raw >= 0x1_0000 ==> v.unit_spec().length_spec().raw <= ONE_RAW + 0x2_0000,
{
    let s = 0x1_0000_0000int;
    let len = v.length_spec().raw as int;
    let u = v.unit_spec();
    let n = v.0.raw * v.0.raw + v.1.raw * v.1.raw + v.2.raw * v.2.raw;
    lemma_hypot(v.0, v.1, v.2);
    lemma_unit_bounded(v);
    assert(u.0.raw == quot(v.0.raw * s, len));
    assert(u.1.raw == quot(v.1.raw * s, len));
    assert(u.2.raw == quot(v.2.raw * s, len));
    lemma_quot_remainder(v.0.raw * s, len);
    lemma_quot_remainder(v.1.raw * s, len);
    lemma_quot_remainder(v.2.raw * s, len);
    lemma_unit_coordinate(s, v.0.raw as int, u.0.raw as int, len);
    lemma_unit_coordinate(s, v.1.raw as int, u.1.raw as int, len);
    lemma_unit_coordinate(s, v.2.raw as int, u.2.raw as int, len);
    let nu = u.0.raw * u.0.raw + u.1.raw * u.1.raw + u.2.raw * u.2.raw;
    let ll = len * len;
    assert(ll >= 1 && ll <= n) by (nonlinear_arith)
        requires
            ll == len * len,
            len >= 1,
            len * len <= n,
    ;
    assert(ll * nu == ll * (u.0.raw * u.0.raw) + ll * (u.1.raw * u.1.raw) + ll * (u.2.raw
        * u.2.raw)) by (nonlinear_arith)
        requires
            nu == u.0.raw * u.0.raw + u.1.raw * u.1.raw + u.2.raw * u.2.raw,
    ;
    assert(s * s * n == s * s * (v.0.raw * v.0.raw) + s * s * (v.1.raw * v.1.raw) + s * s * (v.2.raw
        * v.2.raw)) by (nonlinear_arith)
        requires
            n == v.0.raw * v.0.raw + v.1.raw * v.1.raw + v.2.raw * v.2.raw,
    ;
    assert(s * s * n - 6 * (s * ll) <= ll * nu <= s * s * n + 6 * (s * ll) + 3 * ll);
    // from below
    assert(s * s * ll <= s * s * n) by (nonlinear_arith)
        requires
            ll <= n,
            s == 0x1_0000_0000,
    ;
    assert(nu >= s * s - 6 * s) by (nonlinear_arith)
        requires
            s * s * ll - 6 * (s * ll) <= ll * nu,
            ll >= 1,
            s == 0x1_0000_0000,
    ;
    assert(nu <= 3 * (s * s)) by (nonlinear_arith)
        requires
            nu == u.0.raw * u.0.raw + u.1.raw * u.1.raw + u.2.raw * u.2.raw,
            -s <= u.0.raw <= s,
            -s <= u.1.raw <= s,
            -s <= u.2.raw <= s,
    ;
    let lu = lemma_floor_sqrt_exists(nu);
    assert(lu <= 2 * s) by (nonlinear_arith)
        requires
            lu * lu <= nu,
            nu <= 3 * (s * s),
            s == 0x1_0000_0000,
            0 <= lu,
    ;
    assert(u.length_spec().raw == lu);
    assert(lu >= s - 4) by (nonlinear_arith)
        requires
            nu < (lu + 1) * (lu + 1),
            nu >= s * s - 6 * s,
            s == 0x1_0000_0000,
            0 <= lu,
    ;
    // from above
    let top = s * (len + 1) + 4 * len;
    assert(s * s * n < s * s * ((len + 1) * (len + 1))) by (nonlinear_arith)
        requires
            n < (len + 1) * (len + 1),
            s == 0x1_0000_0000,
    ;
    assert(s * s * ((len + 1) * (len + 1)) + 6 * (s * ll) + 3 * ll <= top * top)
        by (nonlinear_arith)
        requires
            top == s * (len + 1) + 4 * len,
            ll == len * len,
            len >= 1,
            s == 0x1_0000_0000,
    ;
    let x = lu * len;
    assert(x * x == ll * (lu * lu)) by (nonlinear_arith)
        requires
            x == lu * len,
            ll == len * len,
    ;
    assert(ll * (lu * lu) <= ll * nu) by (nonlinear_arith)
        requires
            lu * lu <= nu,
            ll >= 0,
    ;
    assert(x <= top) by (nonlinear_arith)
        requires
            x * x < top * top,
            top >= 0,
            x >= 0,
    ;
    if len >= 0x1_0000 {
        assert(lu <= s + 0x2_0000) by (nonlinear_arith)
            requires
                lu * len <= s * (len + 1) + 4 * len,
                len >= 0x1_0000,
                s == 0x1_0000_0000,
        ;
    }
}

/// The algebra of a reflection, in raw counts with `s` = 2^32.
///
/// With `dn` the computed dot product of the incoming unit vector and the
/// normal, `nn` the computed squared length of the normal, `sum_un` and
/// `sum_nn` the exact sums that they round, `sum_wn` the exact sum of the
/// products of the reflected vector with the normal and `out` its computed
/// value: `out` is `-dn` to within `12 |nn - s| + 48`.
proof fn lemma_mirror_algebra(
    s: int,
    dn: int,
    nn: int,
    sum_un: int,
    sum_nn: int,
    sum_wn: int,
    out: int,
    slack: int,
)
    requires
        s == 0x1_0000_0000,
        -3 * s < sum_un - s * dn < 3 * s,
        0 <= sum_nn - s * nn < 3 * s,
        -6 * (s * s) <= s * sum_wn - (s * sum_un - 2 * (dn * sum_nn)) <= 6 * (s * s),
        -3 * s < sum_wn - s * out < 3 * s,
        0 <= slack,
        -slack <= nn - s <= slack,
        -6 * s <= dn <= 6 * s,
    ensures
        -(12 * slack + 48) <= out + dn <= 12 * slack + 48,
{
    let g = sum_un - s * dn;
    let h = sum_nn - s * nn;
    let e = s * sum_wn - (s * sum_un - 2 * (dn * sum_nn));
    let f = sum_wn - s * out;
    let eps = nn - s;
    let ss = s * s;
    // s^2 (out + dn) = -2 s dn eps + s g - 2 dn h + e - s f
    assert(ss * (out + dn) == -2 * (s * (dn * eps)) + s * g - 2 * (dn * h) + e - s * f)
        by (nonlinear_arith)
        requires
            g == sum_un - s * dn,
            h == sum_nn - s * nn,
            e == s * sum_wn - (s * sum_un - 2 * (dn * sum_nn)),
            f == sum_wn - s * out,
            eps == nn - s,
            ss == s * s,
    ;
    assert(-(6 * (ss * slack)) <= s * (dn * eps) <= 6 * (ss * slack)) by (nonlinear_arith)
        requires
            -slack <= eps <= slack,
            -6 * s <= dn <= 6 * s,
            ss == s * s,
            s == 0x1_0000_0000,
            0 <= slack,
    ;
    assert(-(18 * ss) <= dn * h <= 18 * ss) by (nonlinear_arith)
        requires
            0 <= h < 3 * s,
            -6 * s <= dn <= 6 * s,
            ss == s * s,
            s == 0x1_0000_0000,
    ;
    assert(-(3 * ss) <= s * g <= 3 * ss && -(3 * ss) <= s * f <= 3 * ss) by (nonlinear_arith)
        requires
            -3 * s < g < 3 * s,
            -3 * s < f < 3 * s,
            ss == s * s,
            s == 0x1_0000_0000,
    ;
    let bound = 12 * slack + 48;
    assert(-(ss * bound) <= ss * (out + dn) <= ss * bound) by (nonlinear_arith)
        requires
            ss * (out + dn) == -2 * (s * (dn * eps)) + s * g - 2 * (dn * h) + e - s * f,
            -(6 * (ss * slack)) <= s * (dn * eps) <= 6 * (ss * slack),
            -(18 * ss) <= dn * h <= 18 * ss,
            -(3 * ss) <= s * g <= 3 * ss,
            -(3 * ss) <= s * f <= 3 * ss,
            -6 * ss <= e <= 6 * ss,
            bound == 12 * slack + 48,
    ;
    assert(-bound <= out + dn <= bound) by (nonlinear_arith)
        requires
            -(ss * bound) <= ss * (out + dn) <= ss * bound,
            ss == s * s,
            s == 0x1_0000_0000,
    ;
}

/// One coordinate of a reflection: the coordinate `w = u - p` of the
/// reflected vector, where `p` is the computed `2 n dn`, times the
/// coordinate `n` of the normal.
proof fn lemma_mirror_coordinate(s: int, u: int, n: int, dn: int, p: int, w: int)
    requires
        s == 0x1_0000_0000,
        w == u - p,
        -s < 2 * n * dn - s * p < s,
        -2 * s <= n <= 2 * s,
    ensures
        -2 * (s * s) <= s * (w * n) - (s * (u * n) - 2 * (dn * (n * n))) <= 2 * (s * s),
{
    let e = 2 * n * dn - s * p;
    assert(s * (w * n) == s * (u * n) - 2 * (dn * (n * n)) + e * n) by (nonlinear_arith)
        requires
            w == u - p,
            e == 2 * n * dn - s * p,
    ;
    assert(-2 * (s * s) <= e * n <= 2 * (s * s)) by (nonlinear_arith)
        requires
            -s < e < s,
            -2 * s <= n <= 2 * s,
            s == 0x1_0000_0000,
    ;
}

/// A mirror reverses the part of a vector along the normal. For a vector
/// `u` with coordinates within 1 and a normal `n` with coordinates within 2
/// whose squared length is one to within 2^-16, the dot product of the
/// reflected vector and the normal is minus the dot product of `u` and the
/// normal, to within 2^-12.
pub proof fn lemma_reflect_reverses(u: Vec3<Fixed>, n: Vec3<Fixed>)
    requires
        small(u.0, 1) && small(u.1, 1) && small(u.2, 1),
        small(n.0, 2) && small(n.1, 2) && small(n.2, 2),
        ONE_RAW - 0x1_0000 <= n.length_squared_spec().raw <= ONE_RAW + 0x1_0000,
    ensures
        -0x10_0000 < u.reflect_spec(n).dot_spec(n).raw + u.dot_spec(n).raw < 0x10_0000,
        u.reflect_spec(n).wf(),
{
    let s = 0x1_0000_0000int;
    let two = Fixed::from_int_spec(2);
    assert(two.raw == 2 * s);
    let dn = u.dot_spec(n);
    lemma_times_within(u.0, n.0, 1, 2);
    lemma_times_within(u.1, n.1, 1, 2);
    lemma_times_within(u.2, n.2, 1, 2);
    assert(-6 * s <= dn.raw <= 6 * s);
    let sum_un = u.0.raw * n.0.raw + u.1.raw * n.1.raw + u.2.raw * n.2.raw;
    lemma_times_within(n.0, n.0, 2, 2);
    lemma_times_within(n.1, n.1, 2, 2);
    lemma_times_within(n.2, n.2, 2, 2);
    assert(n.0.raw * n.0.raw >= 0 && n.1.raw * n.1.raw >= 0 && n.2.raw * n.2.raw >= 0)
        by (nonlinear_arith);
    let nn = n.length_squared_spec();
    let sum_nn = n.0.raw * n.0.raw + n.1.raw * n.1.raw + n.2.raw * n.2.raw;
    // twice the normal
    lemma_times_within(n.0, two, 2, 2);
    lemma_times_within(n.1, two, 2, 2);
    lemma_times_within(n.2, two, 2, 2);
    let n2 = n.scale(two);
    assert(n2.0.raw == 2 * n.0.raw) by {
        assert(n.0.raw * two.raw == (2 * n.0.raw) * s) by (nonlinear_arith)
            requires
                two.raw == 2 * s,
        ;
    }
    assert(n2.1.raw == 2 * n.1.raw) by {
        assert(n.1.raw * two.raw == (2 * n.1.raw) * s) by (nonlinear_arith)
            requires
                two.raw == 2 * s,
        ;
    }
    assert(n2.2.raw == 2 * n.2.raw) by {
        assert(n.2.raw * two.raw == (2 * n.2.raw) * s) by (nonlinear_arith)
            requires
                two.raw == 2 * s,
        ;
    }
    lemma_times_within(n2.0, dn, 4, 6);
    lemma_times_within(n2.1, dn, 4, 6);
    lemma_times_within(n2.2, dn, 4, 6);
    let p = n2.scale(dn);
    let w = u.reflect_spec(n);
    assert(w == u.minus(p));
    assert(w.0.raw == u.0.raw - p.0.raw && w.1.raw == u.1.raw - p.1.raw && w.2.raw == u.2.raw
        - p.2.raw);
    assert(n2.0.raw * dn.raw == 2 * n.0.raw * dn.raw) by (nonlinear_arith)
        requires
            n2.0.raw == 2 * n.0.raw,
    ;
    assert(n2.1.raw * dn.raw == 2 * n.1.raw * dn.raw) by (nonlinear_arith)
        requires
            n2.1.raw == 2 * n.1.raw,
    ;
    assert(n2.2.raw * dn.raw == 2 * n.2.raw * dn.raw) by (nonlinear_arith)
        requires
            n2.2.raw == 2 * n.2.raw,
    ;
    lemma_mirror_coordinate(s, u.0.raw as int, n.0.raw as int, dn.raw as int, p.0.raw as int, w.0.raw as int);
    lemma_mirror_coordinate(s, u.1.raw as int, n.1.raw as int, dn.raw as int, p.1.raw as int, w.1.raw as int);
    lemma_mirror_coordinate(s, u.2.raw as int, n.2.raw as int, dn.raw as int, p.2.raw as int, w.2.raw as int);
    lemma_times_within(w.0, n.0, 25, 2);
    lemma_times_within(w.1, n.1, 25, 2);
    lemma_times_within(w.2, n.2, 25, 2);
    let out = w.dot_spec(n);
    let sum_wn = w.0.raw * n.0.raw + w.1.raw * n.1.raw + w.2.raw * n.2.raw;
    assert(s * sum_wn == s * (w.0.raw * n.0.raw) + s * (w.1.raw * n.1.raw) + s * (w.2.raw
        * n.2.raw)) by (nonlinear_arith)
        requires
            sum_wn == w.0.raw * n.0.raw + w.1.raw * n.1.raw + w.2.raw * n.2.raw,
    ;
    assert(s * sum_un == s * (u.0.raw * n.0.raw) + s * (u.1.raw * n.1.raw) + s * (u.2.raw
        * n.2.raw)) by (nonlinear_arith)
        requires
            sum_un == u.0.raw * n.0.raw + u.1.raw * n.1.raw + u.2.raw * n.2.raw,
    ;
    assert(dn.raw * sum_nn == dn.raw * (n.0.raw * n.0.raw) + dn.raw * (n.1.raw * n.1.raw) + dn.raw
        * (n.2.raw * n.2.raw)) by (nonlinear_arith)
        requires
            sum_nn == n.0.raw * n.0.raw + n.1.raw * n.1.raw + n.2.raw * n.2.raw,
    ;
    lemma_mirror_algebra(
        s,
        dn.raw as int,
        nn.raw as int,
        sum_un,
        sum_nn,
        sum_wn,
        out.raw as int,
        0x1_0000,
    );
}

/// One coordinate of a vector shifted along the normal: the coordinate
/// `v = u + k`, where `k` is the computed `n c`, times the coordinate `n`
/// of the normal.
proof fn lemma_shift_coordinate(s: int, u: int, n: int, c: int, k: int, v: int)
    requires
        s == 0x1_0000_0000,
        v == u + k,
        -s < n * c - s * k < s,
        -2 * s <= n <= 2 * s,
    ensures
        -2 * (s * s) <= s * (v * n) - (s * (u * n) + c * (n * n)) <= 2 * (s * s),
{
    let e = n * c - s * k;
    assert(s * (v * n) == s * (u * n) + c * (n * n) - e * n) by (nonlinear_arith)
        requires
            v == u + k,
            e == n * c - s * k,
    ;
    assert(-2 * (s * s) <= e * n <= 2 * (s * s)) by (nonlinear_arith)
        requires
            -s < e < s,
            -2 * s <= n <= 2 * s,
            s == 0x1_0000_0000,
    ;
}

/// The algebra of a shift along the normal, in raw counts with `s` = 2^32.
///
/// With `c` the length of the shift, `nn` the computed squared length of
/// the normal, `sum_nn` the exact sum that it rounds, `sum_un` and `sum_vn`
/// the exact sums of the products of the vector with the normal before and
/// after the shift: `sum_vn` is `sum_un + s c` to within
/// `s (|c| slack / s + 9)`.
proof fn lemma_shift_algebra(
    s: int,
    c: int,
    nn: int,
    sum_un: int,
    sum_nn: int,
    sum_vn: int,
    slack: int,
)
    requires
        s == 0x1_0000_0000,
        0 <= sum_nn - s * nn < 3 * s,
        -6 * (s * s) <= s * sum_vn - (s * sum_un + c * sum_nn) <= 6 * (s * s),
        0 <= slack,
        -slack <= nn - s <= slack,
        -s <= c <= s,
    ensures
        -(s * (slack + 9)) <= sum_vn - sum_un - s * c <= s * (slack + 9),
{
    let h = sum_nn - s * nn;
    let e = s * sum_vn - (s * sum_un + c * sum_nn);
    let eps = nn - s;
    let ss = s * s;
    let x = sum_vn - sum_un - s * c;
    assert(s * x == c * (s * eps) + c * h + e) by (nonlinear_arith)
        requires
            h == sum_nn - s * nn,
            e == s * sum_vn - (s * sum_un + c * sum_nn),
            eps == nn - s,
            x == sum_vn - sum_un - s * c,
    ;
    assert(-(ss * slack) <= c * (s * eps) <= ss * slack) by (nonlinear_arith)
        requires
            -slack <= eps <= slack,
            -s <= c <= s,
            ss == s * s,
            s == 0x1_0000_0000,
            0 <= slack,
    ;
    assert(-(3 * ss) <= c * h <= 3 * ss) by (nonlinear_arith)
        requires
            0 <= h < 3 * s,
            -s <= c <= s,
            ss == s * s,
            s == 0x1_0000_0000,
    ;
    let bound = s * (slack + 9);
    assert(s * bound == ss * slack + 9 * ss) by (nonlinear_arith)
        requires
            bound == s * (slack + 9),
            ss == s * s,
    ;
    assert(-bound <= x <= bound) by (nonlinear_arith)
        requires
            -(s * bound) <= s * x <= s * bound,
            s == 0x1_0000_0000,
    ;
}

/// The exact sum of the products of the coordinates of two vectors, in
/// raw counts: `s` times their computed dot product, to within `3 s`.
proof fn lemma_dot_rounding(a: Vec3<Fixed>, b: Vec3<Fixed>, ba: int, bb: int) -> (sum: int)
    requires
        0 <= ba,
        0 <= bb,
        3 * (ba * bb) <= 0x7fff_ffff,
        small(a.0, ba) && small(a.1, ba) && small(a.2, ba),
        small(b.0, bb) && small(b.1, bb) && small(b.2, bb),
    ensures
        sum == a.0.raw * b.0.raw + a.1.raw * b.1.raw + a.2.raw * b.2.raw,
        -3 * 0x1_0000_0000 < sum - 0x1_0000_0000 * a.dot_spec(b).raw < 3 * 0x1_0000_0000,
        small(a.dot_spec(b), 3 * (ba * bb)),
{
    assert(ba * bb <= 0x7fff_ffff) by (nonlinear_arith)
        requires
            3 * (ba * bb) <= 0x7fff_ffff,
            0 <= ba,
            0 <= bb,
    ;
    lemma_times_within(a.0, b.0, ba, bb);
    lemma_times_within(a.1, b.1, ba, bb);
    lemma_times_within(a.2, b.2, ba, bb);
    a.0.raw * b.0.raw + a.1.raw * b.1.raw + a.2.raw * b.2.raw
}

/// Refraction keeps the part of a vector across the normal, scaled, and
/// gives it the part along the normal that a unit vector needs.
///
/// Let `u` have coordinates within 1 and come against the normal `n`, whose
/// coordinates lie within 2 and whose squared length is one to within
/// 2^-16; let the ratio of the indices lie between 0 and 4, and let the part
/// across the normal come out no longer than one, so that the ray is not
/// reflected totally. Then the part of the refracted vector across the
/// normal is that of `u` times the ratio, which is Snell's law; it is at
/// right angles to the normal to within 2^-13; and the dot product of the
/// refracted vector and the normal is minus the square root of one less the
/// squared length of the part across, to within 2^-12.
pub proof fn lemma_refract_snell(u: Vec3<Fixed>, n: Vec3<Fixed>, ratio: Fixed)
    requires
        small(u.0, 1) && small(u.1, 1) && small(u.2, 1),
        small(n.0, 2) && small(n.1, 2) && small(n.2, 2),
        ONE_RAW - 0x1_0000 <= n.length_squared_spec().raw <= ONE_RAW + 0x1_0000,
        -ONE_RAW <= u.dot_spec(n).raw <= 0,
        0 <= ratio.raw <= 4 * ONE_RAW,
        u.refract_perp_spec(n, ratio).length_squared_spec().raw <= ONE_RAW,
    ensures
        u.refract_perp_spec(n, ratio) == u.minus(n.scale(u.dot_spec(n))).scale(ratio),
        -0x8_0000 < u.refract_perp_spec(n, ratio).dot_spec(n).raw < 0x8_0000,
        -0x10_0000 < u.refract_spec(n, ratio).dot_spec(n).raw + Fixed::one_spec().minus(
            u.refract_perp_spec(n, ratio).length_squared_spec(),
        ).sqrt_spec().raw < 0x10_0000,
{
    let s = 0x1_0000_0000int;
    let dn = u.dot_spec(n);
    let cos = u.cos_theta_spec(n);
    assert(cos == dn.negate());
    assert(cos.raw == -dn.raw);
    // the part across the normal
    lemma_times_negate(n.0, dn);
    lemma_times_negate(n.1, dn);
    lemma_times_negate(n.2, dn);
    let k = n.scale(cos);
    let v = u.plus(k);
    assert(v == u.minus(n.scale(dn)));
    let perp = u.refract_perp_spec(n, ratio);
    assert(perp == v.scale(ratio));
    let sum_un = lemma_dot_rounding(u, n, 1, 2);
    let sum_nn = lemma_dot_rounding(n, n, 2, 2);
    assert(n.0.raw * n.0.raw >= 0 && n.1.raw * n.1.raw >= 0 && n.2.raw * n.2.raw >= 0)
        by (nonlinear_arith);
    let nn = n.length_squared_spec();
    assert(0 <= sum_nn - s * nn.raw < 3 * s);
    lemma_times_within(n.0, cos, 2, 1);
    lemma_times_within(n.1, cos, 2, 1);
    lemma_times_within(n.2, cos, 2, 1);
    assert(v.0.raw == u.0.raw + k.0.raw && v.1.raw == u.1.raw + k.1.raw && v.2.raw == u.2.raw
        + k.2.raw);
    lemma_shift_coordinate(s, u.0.raw as int, n.0.raw as int, cos.raw as int, k.0.raw as int, v.0.raw as int);
    lemma_shift_coordinate(s, u.1.raw as int, n.1.raw as int, cos.raw as int, k.1.raw as int, v.1.raw as int);
    lemma_shift_coordinate(s, u.2.raw as int, n.2.raw as int, cos.raw as int, k.2.raw as int, v.2.raw as int);
    let sum_vn = lemma_dot_rounding(v, n, 3, 2);
    lemma_sum_shift(s, cos.raw as int, sum_un, sum_nn, sum_vn, u, n, v);
    lemma_shift_algebra(s, cos.raw as int, nn.raw as int, sum_un, sum_nn, sum_vn, 0x1_0000);
    // sum_un is s dn to within 3 s and cos is -dn, so sum_vn is small
    assert(-(s * 0x1_000c) <= sum_vn <= s * 0x1_000c);
    // scaled by the ratio
    lemma_times_within(v.0, ratio, 3, 4);
    lemma_times_within(v.1, ratio, 3, 4);
    lemma_times_within(v.2, ratio, 3, 4);
    let sum_pn = lemma_dot_rounding(perp, n, 12, 2);
    lemma_scaled_sum(s, ratio.raw as int, sum_vn, sum_pn, v, n, perp);
    assert(-(s * 0x4_0036) <= sum_pn <= s * 0x4_0036) by (nonlinear_arith)
        requires
            -6 * (s * s) <= s * sum_pn - ratio.raw * sum_vn <= 6 * (s * s),
            -(s * 0x1_000c) <= sum_vn <= s * 0x1_000c,
            0 <= ratio.raw <= 4 * s,
            s == 0x1_0000_0000,
    ;
    // the part along the normal
    let pp = perp.length_squared_spec();
    lemma_length_squared_nonneg(perp);
    let room = Fixed::one_spec().minus(pp);
    assert(0 <= room.raw <= s);
    assert(room.abs_spec() == room);
    let sq = room.sqrt_spec();
    lemma_sqrt_spec(room);
    assert(sq.raw <= s) by {
        if room.raw > 0 && sq.raw > s {
            assert(sq.raw * sq.raw > s * s) by (nonlinear_arith)
                requires
                    sq.raw > s,
                    s == 0x1_0000_0000,
            ;
            assert(room.raw * ONE_RAW <= s * s) by (nonlinear_arith)
                requires
                    0 <= room.raw <= s,
                    s == 0x1_0000_0000,
            ;
        }
    }
    let m = sq.negate();
    assert(m.raw == -sq.raw);
    let par = n.scale(m);
    let t = u.refract_spec(n, ratio);
    assert(t == perp.plus(par));
    lemma_times_within(n.0, m, 2, 1);
    lemma_times_within(n.1, m, 2, 1);
    lemma_times_within(n.2, m, 2, 1);
    assert(t.0.raw == perp.0.raw + par.0.raw && t.1.raw == perp.1.raw + par.1.raw && t.2.raw
        == perp.2.raw + par.2.raw);
    lemma_shift_coordinate(s, perp.0.raw as int, n.0.raw as int, m.raw as int, par.0.raw as int, t.0.raw as int);
    lemma_shift_coordinate(s, perp.1.raw as int, n.1.raw as int, m.raw as int, par.1.raw as int, t.1.raw as int);
    lemma_shift_coordinate(s, perp.2.raw as int, n.2.raw as int, m.raw as int, par.2.raw as int, t.2.raw as int);
    let sum_tn = lemma_dot_rounding(t, n, 14, 2);
    lemma_sum_shift(s, m.raw as int, sum_pn, sum_nn, sum_tn, perp, n, t);
    lemma_shift_algebra(s, m.raw as int, nn.raw as int, sum_pn, sum_nn, sum_tn, 0x1_0000);
}

/// The three coordinates' shares of a shift along the normal add up.
proof fn lemma_sum_shift(
    s: int,
    c: int,
    sum_un: int,
    sum_nn: int,
    sum_vn: int,
    u: Vec3<Fixed>,
    n: Vec3<Fixed>,
    v: Vec3<Fixed>,
)
    requires
        sum_un == u.0.raw * n.0.raw + u.1.raw * n.1.raw + u.2.raw * n.2.raw,
        sum_nn == n.0.raw * n.0.raw + n.1.raw * n.1.raw + n.2.raw * n.2.raw,
        sum_vn == v.0.raw * n.0.raw + v.1.raw * n.1.raw + v.2.raw * n.2.raw,
        -2 * (s * s) <= s * (v.0.raw * n.0.raw) - (s * (u.0.raw * n.0.raw) + c * (n.0.raw * n.0.raw))
            <= 2 * (s * s),
        -2 * (s * s) <= s * (v.1.raw * n.1.raw) - (s * (u.1.raw * n.1.raw) + c * (n.1.raw * n.1.raw))
            <= 2 * (s * s),
        -2 * (s * s) <= s * (v.2.raw * n.2.raw) - (s * (u.2.raw * n.2.raw) + c * (n.2.raw * n.2.raw))
            <= 2 * (s * s),
    ensures
        -6 * (s * s) <= s * sum_vn - (s * sum_un + c * sum_nn) <= 6 * (s * s),
{
    let x0 = v.0.raw * n.0.raw;
    let x1 = v.1.raw * n.1.raw;
    let x2 = v.2.raw * n.2.raw;
    let y0 = u.0.raw * n.0.raw;
    let y1 = u.1.raw * n.1.raw;
    let y2 = u.2.raw * n.2.raw;
    let z0 = n.0.raw * n.0.raw;
    let z1 = n.1.raw * n.1.raw;
    let z2 = n.2.raw * n.2.raw;
    let ss = s * s;
    let d0 = s * x0 - (s * y0 + c * z0);
    let d1 = s * x1 - (s * y1 + c * z1);
    let d2 = s * x2 - (s * y2 + c * z2);
    assert(s * sum_vn - (s * sum_un + c * sum_nn) == d0 + d1 + d2) by (nonlinear_arith)
        requires
            sum_vn == x0 + x1 + x2,
            sum_un == y0 + y1 + y2,
            sum_nn == z0 + z1 + z2,
            d0 == s * x0 - (s * y0 + c * z0),
            d1 == s * x1 - (s * y1 + c * z1),
            d2 == s * x2 - (s * y2 + c * z2),
    ;
    assert(-2 * ss <= d0 <= 2 * ss);
    assert(-2 * ss <= d1 <= 2 * ss);
    assert(-2 * ss <= d2 <= 2 * ss);
}

/// Scaling a vector scales the sum of the products of its coordinates with
/// those of another vector, to within rounding.
proof fn lemma_scaled_sum(
    s: int,
    ratio: int,
    sum_vn: int,
    sum_pn: int,
    v: Vec3<Fixed>,
    n: Vec3<Fixed>,
    p: Vec3<Fixed>,
)
    requires
        s == 0x1_0000_0000,
        sum_vn == v.0.raw * n.0.raw + v.1.raw * n.1.raw + v.2.raw * n.2.raw,
        sum_pn == p.0.raw * n.0.raw + p.1.raw * n.1.raw + p.2.raw * n.2.raw,
        -s < v.0.raw * ratio - s * p.0.raw < s,
        -s < v.1.raw * ratio - s * p.1.raw < s,
        -s < v.2.raw * ratio - s * p.2.raw < s,
        small(n.0, 2) && small(n.1, 2) && small(n.2, 2),
    ensures
        -6 * (s * s) <= s * sum_pn - ratio * sum_vn <= 6 * (s * s),
{
    let d0 = lemma_scaled_product(s, ratio, v.0.raw as int, n.0.raw as int, p.0.raw as int);
    let d1 = lemma_scaled_product(s, ratio, v.1.raw as int, n.1.raw as int, p.1.raw as int);
    let d2 = lemma_scaled_product(s, ratio, v.2.raw as int, n.2.raw as int, p.2.raw as int);
    let x0 = p.0.raw * n.0.raw;
    let x1 = p.1.raw * n.1.raw;
    let x2 = p.2.raw * n.2.raw;
    let y0 = v.0.raw * n.0.raw;
    let y1 = v.1.raw * n.1.raw;
    let y2 = v.2.raw * n.2.raw;
    assert(s * sum_pn - ratio * sum_vn == d0 + d1 + d2) by (nonlinear_arith)
        requires
            sum_pn == x0 + x1 + x2,
            sum_vn == y0 + y1 + y2,
            d0 == s * x0 - ratio * y0,
            d1 == s * x1 - ratio * y1,
            d2 == s * x2 - ratio * y2,
    ;
}

/// One coordinate of a scaled vector times a coordinate of another vector.
proof fn lemma_scaled_product(s: int, ratio: int, v: int, n: int, p: int) -> (d: int)
    requires
        s == 0x1_0000_0000,
        -s < v * ratio - s * p < s,
        -2 * s <= n <= 2 * s,
    ensures
        d == s * (p * n) - ratio * (v * n),
        -2 * (s * s) <= d <= 2 * (s * s),
{
    let f = v * ratio - s * p;
    assert(s * (p * n) - ratio * (v * n) == -(f * n)) by (nonlinear_arith)
        requires
            f == v * ratio - s * p,
    ;
    assert(-2 * (s * s) <= f * n <= 2 * (s * s)) by (nonlinear_arith)
        requires
            -s < f < s,
            -2 * s <= n <= 2 * s,
            s == 0x1_0000_0000,
    ;
    s * (p * n) - ratio * (v * n)
}

} // verus!
