use raytracer::camera::Camera;
use raytracer::fixed::Fixed;
use raytracer::vec::Vec3;

fn fx(x: f64) -> Fixed {
    Fixed { raw: (x * 4294967296.0).round() as i64 }
}

fn as_f64(x: Fixed) -> f64 {
    x.raw as f64 / 4294967296.0
}

fn vf(x: f64, y: f64, z: f64) -> Vec3<Fixed> {
    Vec3(fx(x), fx(y), fx(z))
}

fn raws(a: Vec3<Fixed>) -> (i64, i64, i64) {
    (a.0.raw, a.1.raw, a.2.raw)
}

fn close(a: Vec3<Fixed>, b: (f64, f64, f64), eps: f64) -> bool {
    (as_f64(a.0) - b.0).abs() < eps && (as_f64(a.1) - b.1).abs() < eps && (as_f64(a.2) - b.2).abs() < eps
}

fn facing_down_the_z_axis(aperture: f64) -> Camera {
    Camera::new(
        vf(0.0, 0.0, 0.0),
        vf(0.0, 0.0, -1.0),
        vf(0.0, 1.0, 0.0),
        fx(1.0),
        fx(2.0),
        fx(aperture),
        fx(1.0),
    )
}

#[test]
fn camera_axes_and_viewport() {
    let cam = facing_down_the_z_axis(0.0);
    assert_eq!(raws(cam.origin), raws(vf(0.0, 0.0, 0.0)));
    assert_eq!(raws(cam.w), raws(vf(0.0, 0.0, 1.0)));
    assert_eq!(raws(cam.u), raws(vf(1.0, 0.0, 0.0)));
    assert_eq!(raws(cam.v), raws(vf(0.0, 1.0, 0.0)));
    assert_eq!(raws(cam.horizontal), raws(vf(4.0, 0.0, 0.0)));
    assert_eq!(raws(cam.vertical), raws(vf(0.0, 2.0, 0.0)));
    assert_eq!(raws(cam.lower_left_corner), raws(vf(-2.0, -1.0, -1.0)));
    assert_eq!(cam.lens_radius.raw, 0);
}

#[test]
fn focus_distance_scales_the_viewport() {
    let cam = Camera::new(
        vf(0.0, 0.0, 2.0),
        vf(0.0, 0.0, -1.0),
        vf(0.0, 1.0, 0.0),
        fx(0.5),
        fx(1.0),
        fx(0.5),
        fx(3.0),
    );
    assert_eq!(raws(cam.horizontal), raws(vf(3.0, 0.0, 0.0)));
    assert_eq!(raws(cam.vertical), raws(vf(0.0, 3.0, 0.0)));
    assert_eq!(raws(cam.lower_left_corner), raws(vf(-1.5, -1.5, -1.0)));
    assert_eq!(cam.lens_radius.raw, fx(0.25).raw);
}

#[test]
fn tilted_camera_has_unit_axes_at_right_angles() {
    let cam = Camera::new(
        vf(-2.0, 2.0, 1.0),
        vf(0.0, 0.0, -1.0),
        vf(0.0, 1.0, 0.0),
        fx(0.17632698),
        fx(16.0 / 9.0),
        fx(0.0),
        fx(1.0),
    );
    for axis in [cam.u, cam.v, cam.w] {
        assert!((as_f64(axis.length()) - 1.0).abs() < 1e-8);
    }
    assert!(as_f64(cam.u.dot(cam.v)).abs() < 1e-8);
    assert!(as_f64(cam.v.dot(cam.w)).abs() < 1e-8);
    assert!(as_f64(cam.w.dot(cam.u)).abs() < 1e-8);
    let s = 12f64.sqrt();
    assert!(close(cam.w, (-2.0 / s, 2.0 / s, 2.0 / s), 1e-8));
}

#[test]
fn ray_through_the_middle_looks_at_the_target() {
    let cam = facing_down_the_z_axis(0.0);
    let r = cam.ray_through(Fixed::ratio(1, 2), Fixed::ratio(1, 2), vf(0.0, 0.0, 0.0));
    assert_eq!(raws(r.origin), raws(vf(0.0, 0.0, 0.0)));
    assert_eq!(raws(r.direction), raws(vf(0.0, 0.0, -1.0)));
}

#[test]
fn rays_through_the_corners() {
    let cam = facing_down_the_z_axis(0.0);
    let ll = cam.ray_through(Fixed::zero(), Fixed::zero(), vf(0.0, 0.0, 0.0));
    assert_eq!(raws(ll.direction), raws(vf(-2.0, -1.0, -1.0)));
    let ur = cam.ray_through(Fixed::one(), Fixed::one(), vf(0.0, 0.0, 0.0));
    assert_eq!(raws(ur.direction), raws(vf(2.0, 1.0, -1.0)));
}

#[test]
fn lens_point_shifts_origin_and_keeps_the_target() {
    let cam = facing_down_the_z_axis(2.0);
    assert_eq!(cam.lens_radius.raw, fx(1.0).raw);
    let r = cam.ray_through(Fixed::ratio(1, 2), Fixed::ratio(1, 2), vf(0.5, -0.25, 0.0));
    assert_eq!(raws(r.origin), raws(vf(0.5, -0.25, 0.0)));
    assert_eq!(raws(r.direction), raws(vf(-0.5, 0.25, -1.0)));
    assert_eq!(raws(r.at(Fixed::one())), raws(vf(0.0, 0.0, -1.0)));
}

#[test]
fn pinhole_camera_sends_one_ray_per_point() {
    let cam = facing_down_the_z_axis(0.0);
    let expected = cam.ray_through(fx(0.25), fx(0.75), vf(0.0, 0.0, 0.0));
    for _ in 0..50 {
        let r = cam.get_ray(fx(0.25), fx(0.75));
        assert_eq!(raws(r.origin), raws(expected.origin));
        assert_eq!(raws(r.direction), raws(expected.direction));
    }
}

#[test]
fn lens_camera_sends_rays_from_the_lens_to_the_target() {
    let cam = facing_down_the_z_axis(1.0);
    let mut moved = false;
    for _ in 0..200 {
        let r = cam.get_ray(Fixed::ratio(1, 2), Fixed::ratio(1, 2));
        assert_eq!(r.origin.2.raw, 0);
        assert!(r.origin.length_squared() < fx(0.25));
        assert!(close(r.at(Fixed::one()), (0.0, 0.0, -1.0), 1e-8));
        if r.origin.0.raw != 0 {
            moved = true;
        }
    }
    assert!(moved);
}
