use raytracer::fixed::Fixed;
use raytracer::vec::Vec3;
use raytracer::vec::NEAR_ZERO_RAW;
use std::ops::Range;

fn fx(x: f64) -> Fixed {
    Fixed { raw: (x * 4294967296.0).round() as i64 }
}

fn as_f64(x: Fixed) -> f64 {
    x.raw as f64 / 4294967296.0
}

fn v(x: i64, y: i64, z: i64) -> Vec3<Fixed> {
    Vec3(Fixed::from_int(x), Fixed::from_int(y), Fixed::from_int(z))
}

fn raws(a: Vec3<Fixed>) -> (i64, i64, i64) {
    (a.0.raw, a.1.raw, a.2.raw)
}

#[test]
fn generic_operators_work_on_integers() {
    let a = Vec3(1i64, 2, 3);
    let b = Vec3(10i64, 20, 30);
    let s = a + b;
    assert_eq!((s.0, s.1, s.2), (11, 22, 33));
    let d = b - a;
    assert_eq!((d.0, d.1, d.2), (9, 18, 27));
    let n = -a;
    assert_eq!((n.0, n.1, n.2), (-1, -2, -3));
    let p = a * b;
    assert_eq!((p.0, p.1, p.2), (10, 40, 90));
    let k = a * 4;
    assert_eq!((k.0, k.1, k.2), (4, 8, 12));
    let q = b / a;
    assert_eq!((q.0, q.1, q.2), (10, 10, 10));
    let h = b / 5;
    assert_eq!((h.0, h.1, h.2), (2, 4, 6));
}

#[test]
fn operators_on_fixed_vectors_are_componentwise() {
    let a = v(1, -2, 3);
    let b = v(4, 5, -6);
    assert_eq!(raws(a + b), raws(v(5, 3, -3)));
    assert_eq!(raws(a - b), raws(v(-3, -7, 9)));
    assert_eq!(raws(-a), raws(v(-1, 2, -3)));
    assert_eq!(raws(a * b), raws(v(4, -10, -18)));
    assert_eq!(raws(a * Fixed::from_int(3)), raws(v(3, -6, 9)));
    assert_eq!(raws(v(8, -4, 2) / v(2, 2, -2)), raws(v(4, -2, -1)));
    assert_eq!(raws(v(8, -4, 2) / Fixed::from_int(2)), raws(v(4, -2, 1)));
}

#[test]
fn dot_of_whole_vectors_is_exact() {
    assert_eq!(v(1, 2, 3).dot(v(4, -5, 6)).raw, Fixed::from_int(12).raw);
    assert_eq!(v(1, 0, 0).dot(v(0, 1, 0)).raw, 0);
}

#[test]
fn cross_of_the_axes() {
    assert_eq!(raws(v(1, 0, 0).cross(v(0, 1, 0))), raws(v(0, 0, 1)));
    assert_eq!(raws(v(0, 1, 0).cross(v(1, 0, 0))), raws(v(0, 0, -1)));
    assert_eq!(raws(v(1, 2, 3).cross(v(4, 5, 6))), raws(v(-3, 6, -3)));
    assert_eq!(raws(v(2, 3, 4).cross(v(2, 3, 4))), raws(v(0, 0, 0)));
}

#[test]
fn length_of_a_three_four_five_triangle() {
    let a = v(3, 4, 0);
    assert_eq!(a.length_squared().raw, Fixed::from_int(25).raw);
    assert_eq!(a.length().raw, Fixed::from_int(5).raw);
}

#[test]
fn unit_divides_by_the_length() {
    let u = v(3, 4, 0).unit();
    assert_eq!(raws(u), (2576980377, 3435973836, 0));
    let d = v(0, 0, -7).unit();
    assert_eq!(raws(d), raws(v(0, 0, -1)));
}

#[test]
fn unit_has_length_close_to_one() {
    let u = Vec3(fx(0.3), fx(-1.7), fx(2.2)).unit();
    assert!((as_f64(u.length()) - 1.0).abs() < 1e-8);
}

#[test]
fn unit_of_the_zero_vector_is_the_zero_vector() {
    assert_eq!(raws(v(0, 0, 0).unit()), (0, 0, 0));
}

#[test]
fn near_zero_is_strictly_below_the_threshold() {
    assert_eq!(NEAR_ZERO_RAW, 43);
    let at = |n: i64| Vec3(Fixed { raw: n }, Fixed { raw: 0 }, Fixed { raw: 0 });
    assert!(at(0).near_zero());
    assert!(at(42).near_zero());
    assert!(at(-42).near_zero());
    assert!(!at(43).near_zero());
    assert!(!at(-43).near_zero());
    assert!(as_f64(Fixed { raw: 42 }) < 1e-8);
    assert!(as_f64(Fixed { raw: 43 }) >= 1e-8);
}

#[test]
fn near_zero_looks_at_every_component() {
    let small = Fixed { raw: 5 };
    let big = Fixed { raw: 50 };
    assert!(Vec3(small, small, small).near_zero());
    assert!(!Vec3(big, small, small).near_zero());
    assert!(!Vec3(small, big, small).near_zero());
    assert!(!Vec3(small, small, big).near_zero());
    assert!(!Vec3(small, small, Fixed { raw: i64::MIN }).near_zero());
}

#[test]
fn reflect_mirrors_in_the_surface() {
    assert_eq!(raws(v(1, -1, 0).reflect(v(0, 1, 0))), raws(v(1, 1, 0)));
    assert_eq!(raws(v(0, 0, -1).reflect(v(0, 0, 1))), raws(v(0, 0, 1)));
    assert_eq!(raws(v(1, 0, 0).reflect(v(0, 1, 0))), raws(v(1, 0, 0)));
}

#[test]
fn refract_at_normal_incidence_goes_straight_on() {
    let out = v(0, 0, -1).refract(v(0, 0, 1), Fixed::ratio(2, 3));
    assert_eq!(raws(out), raws(v(0, 0, -1)));
}

#[test]
fn refract_obeys_the_law_of_sines() {
    let s = (0.5f64).sqrt();
    let incoming = Vec3(fx(s), fx(-s), fx(0.0));
    let out = incoming.refract(v(0, 1, 0), Fixed::ratio(2, 3));
    let sin_out = s / 1.5;
    let cos_out = (1.0 - sin_out * sin_out).sqrt();
    assert!((as_f64(out.0) - sin_out).abs() < 1e-8);
    assert!((as_f64(out.1) + cos_out).abs() < 1e-8);
    assert_eq!(out.2.raw, 0);
}

#[test]
fn channel_bytes() {
    assert_eq!(Vec3::channel(Fixed::one()), 255);
    assert_eq!(Vec3::channel(Fixed::zero()), 0);
    assert_eq!(Vec3::channel(Fixed::ratio(1, 4)), 127);
    assert_eq!(Vec3::channel(Fixed::from_int(-1)), 0);
    assert_eq!(Vec3::channel(Fixed::from_int(9)), 255);
    assert_eq!(Vec3::channel(Fixed::ratio(1, 100)), 25);
    assert_eq!(Vec3::channel(Fixed::infinity()), 255);
}

#[test]
fn color_to_bytes() {
    let c = Vec3(Fixed::one(), Fixed::ratio(1, 4), Fixed::zero());
    assert_eq!(c.to_rgb(), (255, 127, 0));
}

#[test]
fn spread_carries_the_unit_cube_over_to_the_range() {
    let range = Range { start: Fixed::from_int(-1), end: Fixed::from_int(1) };
    let u = Vec3(Fixed::zero(), Fixed::ratio(1, 2), Fixed { raw: (1 << 32) - 1 });
    let p = Vec3::spread(u, range);
    assert_eq!(raws(p), (-(1 << 32), 0, (1 << 32) - 2));
    let wide = Range { start: Fixed::from_int(2), end: Fixed::from_int(6) };
    let q = Vec3::spread(Vec3(Fixed::zero(), Fixed::ratio(1, 4), Fixed::ratio(3, 4)), wide);
    assert_eq!(raws(q), raws(v(2, 3, 5)));
}

#[test]
fn disk_candidate_lies_in_the_plane() {
    let c = Vec3::disk_candidate(Fixed::zero(), Fixed::ratio(3, 4));
    assert_eq!(raws(c), (-(1 << 32), 1 << 31, 0));
}

#[test]
fn random_point_of_a_range_lies_in_it() {
    for _ in 0..500 {
        let p = Vec3::random(Range { start: Fixed::from_int(2), end: Fixed::from_int(5) });
        for c in [p.0, p.1, p.2] {
            assert!(c >= Fixed::from_int(2));
            assert!(c < Fixed::from_int(5));
        }
    }
}

#[test]
fn random_in_unit_sphere_lies_in_the_ball() {
    let mut off_origin = 0;
    for _ in 0..2000 {
        let p = Vec3::random_in_unit_sphere();
        assert!(p.length_squared() < Fixed::one());
        if raws(p) != (0, 0, 0) {
            off_origin += 1;
        }
    }
    assert!(off_origin > 1990);
}

#[test]
fn random_unit_vector_has_length_one() {
    for _ in 0..500 {
        let p = Vec3::random_unit_vector();
        let len = as_f64(p.length());
        assert!(raws(p) == (0, 0, 0) || (len - 1.0).abs() < 1e-3);
    }
}

#[test]
fn random_unit_disk_lies_in_the_disk() {
    for _ in 0..2000 {
        let p = Vec3::random_unit_disk();
        assert_eq!(p.2.raw, 0);
        assert!(p.length_squared() < Fixed::one());
    }
}
