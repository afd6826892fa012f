//! Spheres.

use vstd::prelude::*;
use std::ops::Range;
use std::ops::Neg;
use crate::fixed::Fixed;
use crate::hit::HitRecord;
use crate::hit::Hittable;
use crate::hit::lemma_nearest_hit;
use crate::hit::nearest_hit;
use crate::hit::range_contains;
use crate::material::Material;
use crate::ray::Ray;
use crate::vec::Vec3;
use crate::vec::lemma_length_squared_nonneg;
use crate::fixed::lemma_hypot;
use crate::fixed::lemma_sqrt_spec;
use crate::fixed::lemma_over_monotone;
use crate::hit::lemma_normal_opposes_ray;

verus! {

pub struct Sphere {
    pub center: Vec3<Fixed>,
    pub radius: Fixed,
    pub mat: Material,
}

impl Sphere {
    pub fn new(center: Vec3<Fixed>, radius: Fixed, mat: Material) -> (r: Self)
        ensures
            r.center == center,
            r.radius == radius,
            r.mat == mat,
    {
        Sphere { center, radius, mat }
    }

    /// The discriminant, divided by four, of the quadratic
    /// `|origin + t u - center|^2 = radius^2` in `t`.
    pub open spec fn discriminant_along(&self, origin: Vec3<Fixed>, u: Vec3<Fixed>) -> Fixed {
        let oc = origin.minus(self.center);
        let a = u.length_squared_spec();
        let half_b = oc.dot_spec(u);
        let c = oc.length_squared_spec().minus(self.radius.times(self.radius));
        half_b.times(half_b).minus(a.times(c))
    }

    /// A root of that quadratic, where the discriminant is not negative:
    /// the larger one if `far`, else the smaller one.
    pub open spec fn travel_along(&self, origin: Vec3<Fixed>, u: Vec3<Fixed>, far: bool) -> Fixed {
        let oc = origin.minus(self.center);
        let a = u.length_squared_spec();
        let half_b = oc.dot_spec(u);
        let sqrtd = self.discriminant_along(origin, u).sqrt_spec();
        if far {
            half_b.negate().plus(sqrtd).over(a)
        } else {
            half_b.negate().minus(sqrtd).over(a)
        }
    }

    /// The discriminant of the quadratic for the ray's unit direction. The
    /// quadratic is formed with the unit direction, so that a short
    /// direction loses nothing to rounding.
    pub open spec fn discriminant_spec(&self, ray: Ray) -> Fixed {
        self.discriminant_along(ray.origin, ray.direction.unit_spec())
    }

    /// The distance from the ray's origin to the nearer point where its
    /// line meets the sphere, where the discriminant is not negative.
    pub open spec fn near_travel_spec(&self, ray: Ray) -> Fixed {
        self.travel_along(ray.origin, ray.direction.unit_spec(), false)
    }

    /// The distance from the ray's origin to the farther point where its
    /// line meets the sphere, where the discriminant is not negative.
    pub open spec fn far_travel_spec(&self, ray: Ray) -> Fixed {
        self.travel_along(ray.origin, ray.direction.unit_spec(), true)
    }

    /// The smaller root of the quadratic in the ray parameter: the nearer
    /// distance divided by the length of the direction.
    pub open spec fn near_root_spec(&self, ray: Ray) -> Fixed {
        self.near_travel_spec(ray).over(ray.direction.length_spec())
    }

    /// The larger root of the quadratic in the ray parameter: the farther
    /// distance divided by the length of the direction.
    pub open spec fn far_root_spec(&self, ray: Ray) -> Fixed {
        self.far_travel_spec(ray).over(ray.direction.length_spec())
    }

    /// The record of the hit at ray parameter `dist`: the point of the ray
    /// there, with the outward normal `(point - center) / radius`.
    pub open spec fn record_at(&self, ray: Ray, dist: Fixed) -> HitRecord {
        let point = ray.at_spec(dist);
        let normal = point.minus(self.center).shrink(self.radius);
        HitRecord::new_spec(point, normal, self.mat, dist, ray)
    }
}

impl Hittable for Sphere {
    /// No hit where the discriminant is negative. Otherwise the hit at the
    /// smaller root if that root lies in `range`, else the hit at the larger
    /// root if that one does, else none.
    open spec fn hit_spec(&self, ray: Ray, range: Range<Fixed>) -> Option<HitRecord> {
        if self.discriminant_spec(ray).raw < 0 {
            None
        } else if range_contains(range, self.near_root_spec(ray)) {
            Some(self.record_at(ray, self.near_root_spec(ray)))
        } else if range_contains(range, self.far_root_spec(ray)) {
            Some(self.record_at(ray, self.far_root_spec(ray)))
        } else {
            None
        }
    }

    fn hit(&self, r: Ray, range: Range<Fixed>) -> (res: Option<HitRecord>) {
        let oc = r.origin - self.center;
        let len = r.direction.length();
        let unit_direction = r.direction / len;
        let a = unit_direction.length_squared();
        let half_b = oc.dot(unit_direction);
        let c = oc.length_squared() - self.radius * self.radius;

        let discriminant = half_b * half_b - a * c;
        if discriminant < Fixed::zero() {
            return None;
        }
        let sqrtd = discriminant.sqrt();

        let near = (half_b.neg() - sqrtd) / a / len;
        let dist = if range.contains(&near) {
            near
        } else {
            let far = (half_b.neg() + sqrtd) / a / len;
            if range.contains(&far) {
                far
            } else {
                return None;
            }
        };
        let point = r.at(dist);
        let normal = (point - self.center) / self.radius;
        Some(HitRecord::new(point, normal, self.mat, dist, r))
    }

    proof fn lemma_hit_in_range(&self, ray: Ray, range: Range<Fixed>) {
    }

    proof fn lemma_hit_narrowed(&self, ray: Ray, range: Range<Fixed>, end: Fixed) {
        lemma_roots_ordered(*self, ray);
    }
}

/// When a sphere is hit: a ray is hit exactly if the discriminant is not
/// negative and one of the two roots lies in the interval; the hit is then
/// at the smaller root that lies in the interval, at the point of the ray
/// there.
pub proof fn lemma_hit_at_nearest_root(sphere: Sphere, ray: Ray, range: Range<Fixed>)
    ensures
        sphere.hit_spec(ray, range) is None <==> (sphere.discriminant_spec(ray).raw < 0
            || !range_contains(range, sphere.near_root_spec(ray)) && !range_contains(
            range,
            sphere.far_root_spec(ray),
        )),
        sphere.hit_spec(ray, range) matches Some(h) ==> {
            &&& range_contains(range, h.dist)
            &&& h.point == ray.at_spec(h.dist)
            &&& h.dist == sphere.near_root_spec(ray) || h.dist == sphere.far_root_spec(ray)
            &&& range_contains(range, sphere.near_root_spec(ray)) ==> h.dist
                == sphere.near_root_spec(ray)
            &&& range_contains(range, sphere.far_root_spec(ray)) ==> h.dist.raw
                <= sphere.far_root_spec(ray).raw
        },
{
    lemma_roots_ordered(sphere, ray);
}

/// The smaller root is not above the larger one.
pub proof fn lemma_roots_ordered(sphere: Sphere, ray: Ray)
    ensures
        sphere.near_travel_spec(ray).raw <= sphere.far_travel_spec(ray).raw,
        sphere.near_root_spec(ray).raw <= sphere.far_root_spec(ray).raw,
{
    let u = ray.direction.unit_spec();
    let oc = ray.origin.minus(sphere.center);
    let a = u.length_squared_spec();
    let half_b = oc.dot_spec(u);
    let sqrtd = sphere.discriminant_spec(ray).sqrt_spec();
    lemma_sqrt_spec(sphere.discriminant_spec(ray));
    lemma_length_squared_nonneg(u);
    lemma_over_monotone(half_b.negate().minus(sqrtd), half_b.negate().plus(sqrtd), a);
    lemma_hypot(ray.direction.0, ray.direction.1, ray.direction.2);
    lemma_over_monotone(
        sphere.near_travel_spec(ray),
        sphere.far_travel_spec(ray),
        ray.direction.length_spec(),
    );
}

/// The normal recorded for a hit on a sphere at any ray parameter never
/// points along the ray.
pub proof fn lemma_record_normal_opposes_ray(sphere: Sphere, ray: Ray, dist: Fixed)
    ensures
        sphere.record_at(ray, dist).normal.dot_exact(ray.direction) <= 0,
        ray.direction.dot_exact(sphere.record_at(ray, dist).normal) <= 0,
{
    let point = ray.at_spec(dist);
    let normal = point.minus(sphere.center).shrink(sphere.radius);
    lemma_normal_opposes_ray(point, normal, sphere.mat, dist, ray);
}

/// The normal recorded for a hit on a sphere never points along the ray.
pub proof fn lemma_sphere_normal_opposes_ray(sphere: Sphere, ray: Ray, range: Range<Fixed>)
    ensures
        sphere.hit_spec(ray, range) matches Some(h) ==> h.normal.dot_exact(ray.direction) <= 0
            && ray.direction.dot_exact(h.normal) <= 0,
{
    lemma_record_normal_opposes_ray(sphere, ray, sphere.near_root_spec(ray));
    lemma_record_normal_opposes_ray(sphere, ray, sphere.far_root_spec(ray));
}

/// The normal recorded for a hit on a scene of spheres never points along
/// the ray.
pub proof fn lemma_scene_normal_opposes_ray(world: Seq<Sphere>, ray: Ray, range: Range<Fixed>)
    ensures
        nearest_hit(world, ray, range) matches Some(h) ==> h.normal.dot_exact(ray.direction) <= 0
            && ray.direction.dot_exact(h.normal) <= 0,
{
    lemma_nearest_hit(world, ray, range);
    if let Some(h) = nearest_hit(world, ray, range) {
        let i = choose|i: int| 0 <= i < world.len() && (#[trigger] world[i]).hit_spec(ray, range) == Some(h);
        lemma_sphere_normal_opposes_ray(world[i], ray, range);
    }
}

} // verus!
