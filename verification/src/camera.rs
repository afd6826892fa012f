//! The camera: where rays come from.

use vstd::prelude::*;
use crate::accuracy::lemma_unit_length;
use crate::fixed::Fixed;
use crate::fixed::MAX_RAW;
use crate::fixed::ONE_RAW;
use crate::ray::Ray;
use crate::vec::Vec3;
use crate::vec::lemma_unit_bounded;

verus! {

/// A thin-lens camera.
pub struct Camera {
    pub origin: Vec3<Fixed>,
    /// The edges of the plane of focus, as vectors.
    pub horizontal: Vec3<Fixed>,
    pub vertical: Vec3<Fixed>,
    pub lower_left_corner: Vec3<Fixed>,
    /// The camera's own axes: right, up, and backward.
    pub u: Vec3<Fixed>,
    pub v: Vec3<Fixed>,
    pub w: Vec3<Fixed>,
    pub lens_radius: Fixed,
}

impl Camera {
    /// The camera at `look_from` that looks toward `look_at` with `vup`
    /// upward. `half_height` is the tangent of half the vertical field of
    /// view, `aspect_ratio` the width of the image over its height,
    /// `aperture` the diameter of the lens, and `focus_dist` the distance of
    /// the plane that is in focus.
    pub open spec fn new_spec(
        look_from: Vec3<Fixed>,
        look_at: Vec3<Fixed>,
        vup: Vec3<Fixed>,
        half_height: Fixed,
        aspect_ratio: Fixed,
        aperture: Fixed,
        focus_dist: Fixed,
    ) -> Camera {
        let two = Fixed::from_int_spec(2);
        let viewport_height = two.times(half_height);
        let viewport_width = viewport_height.times(aspect_ratio);
        let w = look_from.minus(look_at).unit_spec();
        let u = vup.cross_spec(w).unit_spec();
        let v = w.cross_spec(u);
        let horizontal = u.scale(viewport_width).scale(focus_dist);
        let vertical = v.scale(viewport_height).scale(focus_dist);
        Camera {
            origin: look_from,
            horizontal,
            vertical,
            lower_left_corner: look_from.minus(horizontal.plus(vertical).shrink(two)).minus(
                w.scale(focus_dist),
            ),
            u,
            v,
            w,
            lens_radius: aperture.over(two),
        }
    }

    /// The ray toward the point `(s, t)` of the plane of focus, both
    /// coordinates running from 0 to 1, that leaves the lens at the point
    /// that `lens`, a point of the unit disk, picks.
    pub open spec fn ray_through_spec(&self, s: Fixed, t: Fixed, lens: Vec3<Fixed>) -> Ray {
        let rd = lens.scale(self.lens_radius);
        let offset = self.u.scale(rd.0).plus(self.v.scale(rd.1));
        Ray {
            origin: self.origin.plus(offset),
            direction: self.lower_left_corner.plus(self.horizontal.scale(s)).plus(
                self.vertical.scale(t),
            ).minus(self.origin).minus(offset),
        }
    }

    /// `ray` is one that the camera can send toward `(s, t)`: the ray
    /// through some point of the lens.
    pub open spec fn sends(&self, s: Fixed, t: Fixed, ray: Ray) -> bool {
        exists|lens: Vec3<Fixed>|
            lens.in_unit_ball() && lens.2 == Fixed::zero_spec() && ray == #[trigger] self.ray_through_spec(
                s,
                t,
                lens,
            )
    }

    pub fn new(
        look_from: Vec3<Fixed>,
        look_at: Vec3<Fixed>,
        vup: Vec3<Fixed>,
        half_height: Fixed,
        aspect_ratio: Fixed,
        aperture: Fixed,
        focus_dist: Fixed,
    ) -> (r: Self)
        ensures
            r == Camera::new_spec(
                look_from,
                look_at,
                vup,
                half_height,
                aspect_ratio,
                aperture,
                focus_dist,
            ),
    {
        let h = half_height;
        let viewport_height = Fixed::from_int(2) * h;
        let viewport_width = viewport_height * aspect_ratio;

        let w = (look_from - look_at).unit();
        let u = vup.cross(w).unit();
        let v = w.cross(u);

        let origin = look_from;
        let horizontal = u * viewport_width * focus_dist;
        let vertical = v * viewport_height * focus_dist;
        let lower_left_corner = origin - (horizontal + vertical) / Fixed::from_int(2) - w
            * focus_dist;

        Self {
            origin,
            horizontal,
            vertical,
            lower_left_corner,
            u,
            v,
            w,
            lens_radius: aperture / Fixed::from_int(2),
        }
    }

    /// The ray toward `(s, t)` through the point of the lens that `lens`
    /// picks.
    pub fn ray_through(&self, s: Fixed, t: Fixed, lens: Vec3<Fixed>) -> (r: Ray)
        ensures
            r == self.ray_through_spec(s, t, lens),
    {
        let rd = lens * self.lens_radius;
        let offset = self.u * rd.0 + self.v * rd.1;
        Ray::new(
            self.origin + offset,
            self.lower_left_corner + self.horizontal * s + self.vertical * t - self.origin - offset,
        )
    }

    /// A ray toward `(s, t)` through a random point of the lens.
    pub fn get_ray(&self, s: Fixed, t: Fixed) -> (r: Ray)
        ensures
            self.sends(s, t, r),
    {
        self.ray_through(s, t, Vec3::random_unit_disk())
    }
}

/// The camera's backward and right axes are unit vectors, however close
/// the camera is to what it looks at. Where the camera is not at the point
/// it looks at and the upward direction is not along the line of sight,
/// neither difference being clamped in length, both axes have coordinates
/// between minus one and one and are at least `1 - 2^-30` long.
pub proof fn lemma_camera_axes(
    look_from: Vec3<Fixed>,
    look_at: Vec3<Fixed>,
    vup: Vec3<Fixed>,
    half_height: Fixed,
    aspect_ratio: Fixed,
    aperture: Fixed,
    focus_dist: Fixed,
)
    requires
        look_from.minus(look_at) != Vec3::origin_spec(),
        look_from.minus(look_at).length_spec().raw < MAX_RAW,
        vup.cross_spec(look_from.minus(look_at).unit_spec()) != Vec3::origin_spec(),
        vup.cross_spec(look_from.minus(look_at).unit_spec()).length_spec().raw < MAX_RAW,
    ensures
        ({
            let cam = Camera::new_spec(
                look_from,
                look_at,
                vup,
                half_height,
                aspect_ratio,
                aperture,
                focus_dist,
            );
            &&& cam.w == look_from.minus(look_at).unit_spec()
            &&& cam.u == vup.cross_spec(cam.w).unit_spec()
            &&& cam.v == cam.w.cross_spec(cam.u)
            &&& cam.origin == look_from
            &&& cam.w.length_spec().raw >= ONE_RAW - 4
            &&& cam.u.length_spec().raw >= ONE_RAW - 4
            &&& -ONE_RAW <= cam.w.0.raw <= ONE_RAW && -ONE_RAW <= cam.w.1.raw <= ONE_RAW && -ONE_RAW
                <= cam.w.2.raw <= ONE_RAW
            &&& -ONE_RAW <= cam.u.0.raw <= ONE_RAW && -ONE_RAW <= cam.u.1.raw <= ONE_RAW && -ONE_RAW
                <= cam.u.2.raw <= ONE_RAW
        }),
{
    let sight = look_from.minus(look_at);
    let w = sight.unit_spec();
    let side = vup.cross_spec(w);
    lemma_unit_length(sight);
    lemma_unit_bounded(sight);
    lemma_unit_length(side);
    lemma_unit_bounded(side);
}

} // verus!
