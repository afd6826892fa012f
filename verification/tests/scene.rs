use raytracer::fixed::Fixed;
use raytracer::hit::Hittable;
use raytracer::material::Dielectric;
use raytracer::material::Lambertian;
use raytracer::material::Material;
use raytracer::material::Metal;
use raytracer::ray::Ray;
use raytracer::sphere::Sphere;
use raytracer::vec::Vec3;
use std::ops::Range;

fn fx(x: f64) -> Fixed {
    Fixed { raw: (x * 4294967296.0).round() as i64 }
}

fn vf(x: f64, y: f64, z: f64) -> Vec3<Fixed> {
    Vec3(fx(x), fx(y), fx(z))
}

fn diffuse() -> Material {
    Material::Lambertian(Lambertian { albedo: vf(0.5, 0.5, 0.5) })
}

fn mirror() -> Material {
    Material::Metal(Metal { albedo: vf(0.8, 0.8, 0.8), fuzz: fx(0.0) })
}

fn glass() -> Material {
    Material::Dielectric(Dielectric { ir: fx(1.5) })
}

fn everything() -> Range<Fixed> {
    Range { start: Fixed::ratio(1, 1000), end: Fixed::infinity() }
}

fn forward() -> Ray {
    Ray::new(vf(0.0, 0.0, 0.0), vf(0.0, 0.0, -1.0))
}

#[test]
fn empty_scene_is_never_hit() {
    let world: Vec<Sphere> = Vec::new();
    assert!(world.as_slice().hit(forward(), everything()).is_none());
}

#[test]
fn scene_of_one_gives_that_member_s_hit() {
    let world = vec![Sphere::new(vf(0.0, 0.0, -3.0), fx(1.0), diffuse())];
    let alone = world[0].hit(forward(), everything()).unwrap();
    let h = world.as_slice().hit(forward(), everything()).unwrap();
    assert_eq!(h.dist.raw, alone.dist.raw);
    assert_eq!(h.dist.raw, fx(2.0).raw);
}

#[test]
fn nearest_of_two_overlapping_spheres_wins() {
    let near = Sphere::new(vf(0.0, 0.0, -2.0), fx(1.0), diffuse());
    let far = Sphere::new(vf(0.0, 0.0, -2.5), fx(1.0), mirror());
    let d_near = near.hit(forward(), everything()).unwrap().dist;
    let d_far = far.hit(forward(), everything()).unwrap().dist;
    assert_eq!(d_near.raw, fx(1.0).raw);
    assert_eq!(d_far.raw, fx(1.5).raw);

    let world = vec![near, far];
    let h = world.as_slice().hit(forward(), everything()).unwrap();
    assert_eq!(h.dist.raw, d_near.min(d_far).raw);
    assert!(matches!(h.mat, Material::Lambertian(_)));
}

#[test]
fn nearest_wins_whatever_the_order() {
    let near = Sphere::new(vf(0.0, 0.0, -2.0), fx(1.0), diffuse());
    let far = Sphere::new(vf(0.0, 0.0, -2.5), fx(1.0), mirror());
    let world = vec![far, near];
    let h = world.as_slice().hit(forward(), everything()).unwrap();
    assert_eq!(h.dist.raw, fx(1.0).raw);
    assert!(matches!(h.mat, Material::Lambertian(_)));
}

#[test]
fn nearest_of_many() {
    let mut world = Vec::new();
    for k in [7, 3, 9, 5, 4, 8] {
        world.push(Sphere::new(vf(0.0, 0.0, -(k as f64)), fx(0.5), mirror()));
    }
    world.push(Sphere::new(vf(5.0, 5.0, -1.0), fx(0.5), glass()));
    let mut least = Fixed::infinity();
    for s in world.iter() {
        if let Some(h) = s.hit(forward(), everything()) {
            least = least.min(h.dist);
        }
    }
    let h = world.as_slice().hit(forward(), everything()).unwrap();
    assert_eq!(h.dist.raw, least.raw);
    assert_eq!(h.dist.raw, fx(2.5).raw);
}

#[test]
fn members_that_are_missed_do_not_count() {
    let world = vec![
        Sphere::new(vf(3.0, 0.0, -1.0), fx(0.5), diffuse()),
        Sphere::new(vf(0.0, 0.0, -4.0), fx(0.5), glass()),
        Sphere::new(vf(0.0, 3.0, -2.0), fx(0.5), diffuse()),
    ];
    let h = world.as_slice().hit(forward(), everything()).unwrap();
    assert_eq!(h.dist.raw, fx(3.5).raw);
    assert!(matches!(h.mat, Material::Dielectric(_)));
}

#[test]
fn scene_that_is_missed_gives_nothing() {
    let world = vec![
        Sphere::new(vf(3.0, 0.0, -1.0), fx(0.5), diffuse()),
        Sphere::new(vf(0.0, 3.0, -2.0), fx(0.5), diffuse()),
    ];
    assert!(world.as_slice().hit(forward(), everything()).is_none());
}

#[test]
fn of_two_hits_at_one_distance_the_first_stays() {
    let a = Sphere::new(vf(0.0, 0.0, -2.0), fx(1.0), diffuse());
    let b = Sphere::new(vf(0.0, 0.0, -2.0), fx(1.0), mirror());
    let world = vec![a, b];
    let h = world.as_slice().hit(forward(), everything()).unwrap();
    assert!(matches!(h.mat, Material::Lambertian(_)));
    let c = Sphere::new(vf(0.0, 0.0, -2.0), fx(1.0), diffuse());
    let d = Sphere::new(vf(0.0, 0.0, -2.0), fx(1.0), mirror());
    let world = vec![d, c];
    let h = world.as_slice().hit(forward(), everything()).unwrap();
    assert!(matches!(h.mat, Material::Metal(_)));
}

#[test]
fn scene_respects_the_interval() {
    let world = vec![
        Sphere::new(vf(0.0, 0.0, -2.0), fx(1.0), diffuse()),
        Sphere::new(vf(0.0, 0.0, -6.0), fx(1.0), mirror()),
    ];
    let h = world.as_slice().hit(forward(), Range { start: fx(3.5), end: fx(10.0) }).unwrap();
    assert_eq!(h.dist.raw, fx(5.0).raw);
    assert!(world.as_slice().hit(forward(), Range { start: fx(3.5), end: fx(5.0) }).is_none());
    let h = world.as_slice().hit(forward(), Range { start: fx(1.5), end: fx(4.0) }).unwrap();
    assert_eq!(h.dist.raw, fx(3.0).raw);
}

#[test]
fn hollow_shell_is_hit_on_its_outer_surface_first() {
    let world = vec![
        Sphere::new(vf(0.0, 0.0, -1.0), fx(0.5), glass()),
        Sphere::new(vf(0.0, 0.0, -1.0), fx(-0.45), glass()),
    ];
    let h = world.as_slice().hit(forward(), everything()).unwrap();
    assert_eq!(h.dist.raw, fx(0.5).raw);
    assert!(h.front_face);
}
