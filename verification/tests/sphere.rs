use raytracer::fixed::Fixed;
use raytracer::hit::HitRecord;
use raytracer::hit::Hittable;
use raytracer::material::Lambertian;
use raytracer::material::Material;
use raytracer::ray::Ray;
use raytracer::sphere::Sphere;
use raytracer::vec::Vec3;
use std::ops::Range;

fn fx(x: f64) -> Fixed {
    Fixed { raw: (x * 4294967296.0).round() as i64 }
}

fn as_f64(x: Fixed) -> f64 {
    x.raw as f64 / 4294967296.0
}

fn vf(x: f64, y: f64, z: f64) -> Vec3<Fixed> {
    Vec3(fx(x), fx(y), fx(z))
}

fn raws(a: Vec3<Fixed>) -> (i64, i64, i64) {
    (a.0.raw, a.1.raw, a.2.raw)
}

fn exact_dot(a: Vec3<Fixed>, b: Vec3<Fixed>) -> i32 {
    let products = [
        a.0.raw as i128 * b.0.raw as i128,
        a.1.raw as i128 * b.1.raw as i128,
        a.2.raw as i128 * b.2.raw as i128,
    ];
    let above: u128 = products.iter().filter(|p| **p > 0).map(|p| *p as u128).sum();
    let below: u128 = products.iter().filter(|p| **p < 0).map(|p| p.unsigned_abs()).sum();
    if above > below {
        1
    } else if above < below {
        -1
    } else {
        0
    }
}

fn gray() -> Material {
    Material::Lambertian(Lambertian { albedo: vf(0.5, 0.5, 0.5) })
}

fn everything() -> Range<Fixed> {
    Range { start: Fixed::ratio(1, 1000), end: Fixed::infinity() }
}

fn ball() -> Sphere {
    Sphere::new(vf(0.0, 0.0, -1.0), fx(0.5), gray())
}

#[test]
fn ray_at_walks_along_the_direction() {
    let r = Ray::new(vf(1.0, 2.0, 3.0), vf(0.0, -1.0, 2.0));
    assert_eq!(raws(r.at(Fixed::from_int(2))), raws(vf(1.0, 0.0, 7.0)));
    assert_eq!(raws(r.at(Fixed::zero())), raws(vf(1.0, 2.0, 3.0)));
    assert_eq!(raws(r.at(Fixed::ratio(-1, 2))), raws(vf(1.0, 2.5, 2.0)));
}

#[test]
fn sphere_new_keeps_its_parts() {
    let s = Sphere::new(vf(1.0, 2.0, 3.0), fx(4.0), gray());
    assert_eq!(raws(s.center), raws(vf(1.0, 2.0, 3.0)));
    assert_eq!(s.radius.raw, fx(4.0).raw);
    assert!(matches!(s.mat, Material::Lambertian(_)));
}

#[test]
fn head_on_hit_is_exact() {
    let r = Ray::new(vf(0.0, 0.0, 0.0), vf(0.0, 0.0, -1.0));
    let h = ball().hit(r, everything()).unwrap();
    assert_eq!(h.dist.raw, fx(0.5).raw);
    assert_eq!(raws(h.point), raws(vf(0.0, 0.0, -0.5)));
    assert_eq!(raws(h.normal), raws(vf(0.0, 0.0, 1.0)));
    assert!(h.front_face);
    assert!(matches!(h.mat, Material::Lambertian(_)));
}

#[test]
fn hit_from_inside_meets_the_back_face() {
    let r = Ray::new(vf(0.0, 0.0, -1.0), vf(0.0, 0.0, -1.0));
    let h = ball().hit(r, everything()).unwrap();
    assert_eq!(h.dist.raw, fx(0.5).raw);
    assert_eq!(raws(h.point), raws(vf(0.0, 0.0, -1.5)));
    assert!(!h.front_face);
    assert_eq!(raws(h.normal), raws(vf(0.0, 0.0, 1.0)));
}

#[test]
fn ray_that_passes_by_misses() {
    let r = Ray::new(vf(0.0, 0.0, 0.0), vf(0.0, 1.0, 0.0));
    assert!(ball().hit(r, everything()).is_none());
    let grazing = Ray::new(vf(0.0, 0.6, 0.0), vf(0.0, 0.0, -1.0));
    assert!(ball().hit(grazing, everything()).is_none());
}

#[test]
fn sphere_behind_the_ray_is_not_hit() {
    let r = Ray::new(vf(0.0, 0.0, 0.0), vf(0.0, 0.0, 1.0));
    assert!(ball().hit(r, everything()).is_none());
}

#[test]
fn interval_bounds_the_accepted_roots() {
    let r = Ray::new(vf(0.0, 0.0, 0.0), vf(0.0, 0.0, -1.0));
    let s = ball();
    let upto = |end: f64| Range { start: fx(0.001), end: fx(end) };
    assert!(s.hit(r, upto(0.4)).is_none());
    assert!(s.hit(r, upto(0.5)).is_none());
    assert_eq!(s.hit(r, upto(0.51)).unwrap().dist.raw, fx(0.5).raw);
    let from = |start: f64| Range { start: fx(start), end: Fixed::infinity() };
    assert_eq!(s.hit(r, from(0.5)).unwrap().dist.raw, fx(0.5).raw);
    assert_eq!(s.hit(r, from(0.6)).unwrap().dist.raw, fx(1.5).raw);
    assert_eq!(s.hit(r, from(1.5)).unwrap().dist.raw, fx(1.5).raw);
    assert!(s.hit(r, from(1.6)).is_none());
    assert!(s.hit(r, Range { start: fx(0.6), end: fx(1.5) }).is_none());
}

#[test]
fn ray_leaving_the_surface_does_not_hit_it_again() {
    let r = Ray::new(vf(0.0, 0.0, -0.5), vf(0.0, 0.0, 1.0));
    assert!(ball().hit(r, everything()).is_none());
}

#[test]
fn hit_points_lie_on_the_sphere() {
    let centers = [vf(0.0, 0.0, -1.0), vf(1.5, -0.25, -3.0), vf(0.0, -100.5, -1.0)];
    let radii = [0.5, 1.25, 100.0];
    let mut hits = 0;
    for k in 0..3 {
        let s = Sphere::new(centers[k], fx(radii[k]), gray());
        for i in -10..=10 {
            for j in -10..=10 {
                let d = vf(i as f64 * 0.07, j as f64 * 0.07 - 0.3, -1.0);
                let r = Ray::new(vf(0.1, 0.2, 0.3), d);
                if let Some(h) = s.hit(r, everything()) {
                    hits += 1;
                    let off = (h.point - s.center).length();
                    assert!((as_f64(off) - radii[k]).abs() < 1e-5);
                    assert!(h.dist >= fx(0.001));
                    let along = r.at(h.dist);
                    assert_eq!(raws(along), raws(h.point));
                }
            }
        }
    }
    assert!(hits > 300);
}

#[test]
fn normals_oppose_the_ray() {
    let s = Sphere::new(vf(0.2, -0.1, -2.0), fx(1.5), gray());
    let origins = [vf(0.0, 0.0, 0.0), vf(0.2, -0.1, -2.0), vf(0.5, 0.5, -2.5), vf(0.0, 0.0, -5.0)];
    let mut hits = 0;
    let mut back = 0;
    for o in origins {
        for i in -8..=8 {
            for j in -8..=8 {
                for k in [-1.0, 1.0] {
                    let d = vf(i as f64 * 0.11, j as f64 * 0.13, k);
                    let r = Ray::new(o, d);
                    if let Some(h) = s.hit(r, everything()) {
                        hits += 1;
                        if !h.front_face {
                            back += 1;
                        }
                        assert!(exact_dot(r.direction, h.normal) <= 0);
                        assert!((as_f64(h.normal.length()) - 1.0).abs() < 1e-6);
                    }
                }
            }
        }
    }
    assert!(hits > 500);
    assert!(back > 100);
}

#[test]
fn record_turns_the_normal_against_the_ray() {
    let r = Ray::new(vf(0.0, 0.0, 0.0), vf(0.0, 0.0, -1.0));
    let point = vf(0.0, 0.0, -2.0);
    let facing = HitRecord::new(point, vf(0.0, 0.0, 1.0), gray(), fx(2.0), r);
    assert!(facing.front_face);
    assert_eq!(raws(facing.normal), raws(vf(0.0, 0.0, 1.0)));
    let away = HitRecord::new(point, vf(0.0, 0.0, -1.0), gray(), fx(2.0), r);
    assert!(!away.front_face);
    assert_eq!(raws(away.normal), raws(vf(0.0, 0.0, 1.0)));
    assert_eq!(away.dist.raw, fx(2.0).raw);
    assert_eq!(raws(away.point), raws(point));
}

#[test]
fn record_of_a_normal_across_the_ray_counts_as_back_face() {
    let r = Ray::new(vf(0.0, 0.0, 0.0), vf(0.0, 0.0, -1.0));
    let h = HitRecord::new(vf(0.0, 0.0, -2.0), vf(1.0, 0.0, 0.0), gray(), fx(2.0), r);
    assert!(!h.front_face);
    assert_eq!(raws(h.normal), raws(vf(-1.0, 0.0, 0.0)));
    assert_eq!(r.direction.dot(h.normal).raw, 0);
}

#[test]
fn negative_radius_turns_the_normal_inward() {
    let s = Sphere::new(vf(0.0, 0.0, -1.0), fx(-0.5), gray());
    let r = Ray::new(vf(0.0, 0.0, 0.0), vf(0.0, 0.0, -1.0));
    let h = s.hit(r, everything()).unwrap();
    assert_eq!(h.dist.raw, fx(0.5).raw);
    assert!(!h.front_face);
    assert_eq!(raws(h.normal), raws(vf(0.0, 0.0, 1.0)));
}

#[test]
fn ray_without_direction_hits_nothing_outside() {
    let r = Ray::new(vf(0.0, 0.0, 0.0), vf(0.0, 0.0, 0.0));
    assert!(ball().hit(r, everything()).is_none());
}

#[test]
fn tangent_ray_touches_at_one_point() {
    let r = Ray::new(vf(0.0, 0.5, 0.0), vf(0.0, 0.0, -1.0));
    let h = ball().hit(r, everything()).unwrap();
    assert_eq!(h.dist.raw, fx(1.0).raw);
    assert_eq!(raws(h.point), raws(vf(0.0, 0.5, -1.0)));
    assert!(!h.front_face);
    assert_eq!(raws(h.normal), raws(vf(0.0, -1.0, 0.0)));
    assert_eq!(r.direction.dot(h.normal).raw, 0);
}

#[test]
fn extreme_inputs_are_tolerated() {
    let lowest = Fixed { raw: i64::MIN };
    let highest = Fixed { raw: i64::MAX };
    let corners = [Vec3(lowest, lowest, lowest), Vec3(highest, lowest, highest), Vec3(highest, highest, highest)];
    let mut calls = 0;
    for c in corners {
        for o in corners {
            for d in corners {
                for radius in [lowest, Fixed::zero(), highest] {
                    let s = Sphere::new(c, radius, gray());
                    let r = Ray::new(o, d);
                    if let Some(h) = s.hit(r, everything()) {
                        assert!(h.dist >= Fixed::ratio(1, 1000));
                        assert!(h.dist < Fixed::infinity());
                        assert!(exact_dot(r.direction, h.normal) <= 0);
                    }
                    calls += 1;
                }
            }
        }
    }
    assert_eq!(calls, 81);
}

#[test]
fn hit_points_are_within_the_proved_tolerance() {
    let spheres = [
        Sphere::new(vf(0.0, 0.0, -1.0), fx(0.5), gray()),
        Sphere::new(vf(0.0, -100.5, -1.0), fx(100.0), gray()),
        Sphere::new(vf(-90.0, 60.0, 40.0), fx(127.0), gray()),
    ];
    let mut hits = 0;
    let mut worst = 0;
    for s in spheres.iter() {
        for i in -12..=12 {
            for j in -12..=12 {
                for k in [-1.0, 0.25, 1.0] {
                    let d = vf(i as f64 * 0.6, j as f64 * 0.6 + 0.3, k);
                    let r = Ray::new(vf(3.0, -2.0, 5.0), d);
                    assert!(d.length_squared() >= Fixed::ratio(1, 16));
                    if let Some(h) = s.hit(r, everything()) {
                        if h.dist <= Fixed::from_int(128) {
                            hits += 1;
                            let off = (h.point - s.center).length_squared().raw - (s.radius * s.radius).raw;
                            assert!(off.abs() <= 1 << 20);
                            worst = worst.max(off.abs());
                        }
                    }
                }
            }
        }
    }
    assert!(hits > 1000);
    assert!(worst > 0);
}
