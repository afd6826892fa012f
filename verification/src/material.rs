//! Surface materials and how they scatter light.
//!
//! Scattering is random. Each material has a function that takes the random
//! choice as an argument and is exact, and one that draws the choice, of
//! which the contract says that its result is that of the first for some
//! admissible choice.

use vstd::prelude::*;
use std::ops::Neg;
use crate::accuracy::lemma_reflect_reverses;
use crate::accuracy::lemma_refract_snell;
use crate::accuracy::small;
use crate::fixed::Fixed;
use crate::fixed::ONE_RAW;
use crate::fixed::lemma_hypot;
use crate::fixed::lemma_plus_zero;
use crate::fixed::lemma_times_fraction;
use crate::fixed::lemma_times_zero;
use crate::hit::HitRecord;
use crate::ray::Ray;
use crate::vec::NEAR_ZERO_RAW;
use crate::vec::Vec3;
use crate::vec::lemma_unit_bounded;

verus! {

/// A diffuse surface.
#[derive(Clone, Copy)]
pub struct Lambertian {
    pub albedo: Vec3<Fixed>,
}

/// A mirror-like surface; `fuzz` blurs the reflection.
#[derive(Clone, Copy)]
pub struct Metal {
    pub albedo: Vec3<Fixed>,
    pub fuzz: Fixed,
}

/// A clear surface with index of refraction `ir`.
#[derive(Clone, Copy)]
pub struct Dielectric {
    pub ir: Fixed,
}

/// The material of a surface.
#[derive(Clone, Copy)]
pub enum Material {
    Lambertian(Lambertian),
    Metal(Metal),
    Dielectric(Dielectric),
}

/// The random choices that one scattering event can use: a point inside
/// the unit ball and a number in `[0, 1)`.
#[derive(Clone, Copy)]
pub struct Draw {
    pub ball: Vec3<Fixed>,
    pub coin: Fixed,
}

impl Draw {
    /// The point lies inside the unit ball and the number in `[0, 1)`.
    pub open spec fn valid(self) -> bool {
        self.ball.in_unit_ball() && self.coin.is_unit_sample()
    }
}

impl Lambertian {
    /// The light leaves along the normal plus the unit vector `unit`, or
    /// along the normal alone where that sum is near zero, and is
    /// attenuated by the albedo. Nothing is absorbed.
    pub open spec fn scatter_spec(&self, rec: HitRecord, unit: Vec3<Fixed>) -> Option<
        (Vec3<Fixed>, Ray),
    > {
        let sum = rec.normal.plus(unit);
        let direction = if sum.near_zero_spec() {
            rec.normal
        } else {
            sum
        };
        Some((self.albedo, Ray { origin: rec.point, direction }))
    }

    /// Scatters with `unit` as the random unit vector.
    pub fn scatter_with(&self, rec: &HitRecord, unit: Vec3<Fixed>) -> (r: Option<(Vec3<Fixed>, Ray)>)
        ensures
            r == self.scatter_spec(*rec, unit),
    {
        let mut scatter_direction = rec.normal + unit;
        if scatter_direction.near_zero() {
            scatter_direction = rec.normal;
        }
        Some((self.albedo, Ray::new(rec.point, scatter_direction)))
    }

    pub fn scatter(&self, _r_in: &Ray, rec: &HitRecord) -> (r: Option<(Vec3<Fixed>, Ray)>)
        ensures
            exists|ball: Vec3<Fixed>|
                ball.in_unit_ball() && r == self.scatter_spec(*rec, #[trigger] ball.unit_spec()),
            r matches Some(s) && s.0 == self.albedo,
    {
        self.scatter_with(rec, Vec3::random_unit_vector())
    }
}

impl Metal {
    /// The direction of the incoming ray, made a unit vector and mirrored
    /// in the surface.
    pub open spec fn mirrored_spec(r_in: Ray, rec: HitRecord) -> Vec3<Fixed> {
        r_in.direction.unit_spec().reflect_spec(rec.normal)
    }

    /// The light leaves along the mirrored direction plus `fuzz` times
    /// `ball`, attenuated by the albedo, if that direction has a positive
    /// dot product with the normal. Otherwise it is absorbed.
    pub open spec fn scatter_spec(&self, r_in: Ray, rec: HitRecord, ball: Vec3<Fixed>) -> Option<
        (Vec3<Fixed>, Ray),
    > {
        let reflected = Metal::mirrored_spec(r_in, rec).plus(ball.scale(self.fuzz));
        if reflected.dot_spec(rec.normal).raw > 0 {
            Some((self.albedo, Ray { origin: rec.point, direction: reflected }))
        } else {
            None
        }
    }

    /// Scatters with `ball` as the random point of the unit ball.
    pub fn scatter_with(&self, r_in: &Ray, rec: &HitRecord, ball: Vec3<Fixed>) -> (r: Option<
        (Vec3<Fixed>, Ray),
    >)
        ensures
            r == self.scatter_spec(*r_in, *rec, ball),
    {
        let reflected = r_in.direction.unit().reflect(rec.normal) + ball * self.fuzz;
        if reflected.dot(rec.normal) > Fixed::zero() {
            Some((self.albedo, Ray::new(rec.point, reflected)))
        } else {
            None
        }
    }

    pub fn scatter(&self, r_in: &Ray, rec: &HitRecord) -> (r: Option<(Vec3<Fixed>, Ray)>)
        ensures
            exists|ball: Vec3<Fixed>|
                ball.in_unit_ball() && r == #[trigger] self.scatter_spec(*r_in, *rec, ball),
    {
        self.scatter_with(r_in, rec, Vec3::random_in_unit_sphere())
    }
}

impl Dielectric {
    /// The ratio of the refractive index on the side that the ray comes
    /// from to that on the side it goes to: `1 / ir` into the material
    /// through its front face, `ir` out of it.
    pub open spec fn refraction_ratio_spec(&self, front_face: bool) -> Fixed {
        if front_face {
            Fixed::one_spec().over(self.ir)
        } else {
            self.ir
        }
    }

    /// Schlick's approximation of the share of light that is reflected:
    /// `r0 + (1 - r0) (1 - cosine)^5` with `r0 = ((1 - n) / (1 + n))^2`.
    pub open spec fn reflectance_spec(cosine: Fixed, ref_idx: Fixed) -> Fixed {
        let one = Fixed::one_spec();
        let r = one.minus(ref_idx).over(one.plus(ref_idx));
        let r0 = r.times(r);
        r0.plus(one.minus(r0).times(one.minus(cosine).powi_spec(5)))
    }

    /// The sine of the angle of incidence for a given cosine.
    pub open spec fn sin_theta_spec(cos_theta: Fixed) -> Fixed {
        Fixed::one_spec().minus(cos_theta.times(cos_theta)).sqrt_spec()
    }

    /// The ray must be reflected: Snell's law has no solution.
    pub open spec fn cannot_refract_spec(&self, r_in: Ray, rec: HitRecord) -> bool {
        let ratio = self.refraction_ratio_spec(rec.front_face);
        let cos_theta = r_in.direction.unit_spec().cos_theta_spec(rec.normal);
        ratio.times(Dielectric::sin_theta_spec(cos_theta)).raw > ONE_RAW
    }

    /// The ray is reflected: it must be, or the reflectance is above
    /// `coin`.
    pub open spec fn reflects_spec(&self, r_in: Ray, rec: HitRecord, coin: Fixed) -> bool {
        let ratio = self.refraction_ratio_spec(rec.front_face);
        let cos_theta = r_in.direction.unit_spec().cos_theta_spec(rec.normal);
        self.cannot_refract_spec(r_in, rec) || Dielectric::reflectance_spec(cos_theta, ratio).raw
            > coin.raw
    }

    /// The light leaves unattenuated, along the mirrored direction if it is
    /// reflected and along the refracted one if not. Nothing is absorbed.
    pub open spec fn scatter_spec(&self, r_in: Ray, rec: HitRecord, coin: Fixed) -> Option<
        (Vec3<Fixed>, Ray),
    > {
        let unit_direction = r_in.direction.unit_spec();
        let direction = if self.reflects_spec(r_in, rec, coin) {
            unit_direction.reflect_spec(rec.normal)
        } else {
            unit_direction.refract_spec(rec.normal, self.refraction_ratio_spec(rec.front_face))
        };
        Some(
            (
                Vec3(Fixed::one_spec(), Fixed::one_spec(), Fixed::one_spec()),
                Ray { origin: rec.point, direction },
            ),
        )
    }

    pub fn reflectance(cosine: Fixed, ref_idx: Fixed) -> (r: Fixed)
        ensures
            r == Dielectric::reflectance_spec(cosine, ref_idx),
    {
        let mut r0 = (Fixed::one() - ref_idx) / (Fixed::one() + ref_idx);
        r0 = r0 * r0;
        r0 + (Fixed::one() - r0) * (Fixed::one() - cosine).powi(5)
    }

    /// Scatters with `coin` as the random number that the reflectance is
    /// held against.
    pub fn scatter_with(&self, r_in: &Ray, rec: &HitRecord, coin: Fixed) -> (r: Option<
        (Vec3<Fixed>, Ray),
    >)
        ensures
            r == self.scatter_spec(*r_in, *rec, coin),
    {
        let refraction_ratio = if rec.front_face {
            Fixed::one() / self.ir
        } else {
            self.ir
        };
        let unit_direction = r_in.direction.unit();
        let cos_theta = unit_direction.dot(rec.normal).neg().min(Fixed::one());
        let sin_theta = (Fixed::one() - cos_theta * cos_theta).sqrt();

        let cannot_refract = refraction_ratio * sin_theta > Fixed::one();
        let direction = if cannot_refract || Dielectric::reflectance(cos_theta, refraction_ratio)
            > coin {
            unit_direction.reflect(rec.normal)
        } else {
            unit_direction.refract(rec.normal, refraction_ratio)
        };

        Some((Vec3(Fixed::one(), Fixed::one(), Fixed::one()), Ray::new(rec.point, direction)))
    }

    pub fn scatter(&self, r_in: &Ray, rec: &HitRecord) -> (r: Option<(Vec3<Fixed>, Ray)>)
        ensures
            exists|coin: Fixed|
                coin.is_unit_sample() && r == #[trigger] self.scatter_spec(*r_in, *rec, coin),
            r is Some,
    {
        self.scatter_with(r_in, rec, Fixed::random())
    }
}

impl Material {
    /// The share of the light that the material passes on when it
    /// scatters, by channel: the albedo of a diffuse surface or a metal,
    /// all of it for a clear surface.
    pub open spec fn albedo_spec(&self) -> Vec3<Fixed> {
        match self {
            Material::Lambertian(m) => m.albedo,
            Material::Metal(m) => m.albedo,
            Material::Dielectric(_) => Vec3(Fixed::one_spec(), Fixed::one_spec(), Fixed::one_spec()),
        }
    }

    /// What the material does with a ray that hit it, for the random
    /// choices `draw`: the attenuation and the scattered ray, or nothing
    /// where the ray is absorbed. A diffuse surface uses the unit vector
    /// along `draw.ball`, a metal `draw.ball` itself, a clear surface
    /// `draw.coin`.
    pub open spec fn scatter_spec(&self, r_in: Ray, rec: HitRecord, draw: Draw) -> Option<
        (Vec3<Fixed>, Ray),
    > {
        match self {
            Material::Lambertian(m) => m.scatter_spec(rec, draw.ball.unit_spec()),
            Material::Metal(m) => m.scatter_spec(r_in, rec, draw.ball),
            Material::Dielectric(m) => m.scatter_spec(r_in, rec, draw.coin),
        }
    }

    /// Scatters with `draw` as the random choices.
    pub fn scatter_with(&self, r_in: &Ray, rec: &HitRecord, draw: &Draw) -> (r: Option<
        (Vec3<Fixed>, Ray),
    >)
        ensures
            r == self.scatter_spec(*r_in, *rec, *draw),
    {
        match self {
            Material::Lambertian(m) => m.scatter_with(rec, draw.ball.unit()),
            Material::Metal(m) => m.scatter_with(r_in, rec, draw.ball),
            Material::Dielectric(m) => m.scatter_with(r_in, rec, draw.coin),
        }
    }

    pub fn scatter(&self, r_in: &Ray, rec: &HitRecord) -> (r: Option<(Vec3<Fixed>, Ray)>)
        ensures
            exists|draw: Draw| draw.valid() && r == #[trigger] self.scatter_spec(*r_in, *rec, draw),
    {
        match self {
            Material::Lambertian(m) => {
                let r = m.scatter(r_in, rec);
                proof {
                    let ball = choose|ball: Vec3<Fixed>|
                        ball.in_unit_ball() && r == m.scatter_spec(*rec, #[trigger] ball.unit_spec());
                    let draw = Draw { ball, coin: Fixed::zero_spec() };
                    assert(draw.valid() && r == self.scatter_spec(*r_in, *rec, draw));
                }
                r
            },
            Material::Metal(m) => {
                let r = m.scatter(r_in, rec);
                proof {
                    let ball = choose|ball: Vec3<Fixed>|
                        ball.in_unit_ball() && r == #[trigger] m.scatter_spec(*r_in, *rec, ball);
                    let draw = Draw { ball, coin: Fixed::zero_spec() };
                    assert(draw.valid() && r == self.scatter_spec(*r_in, *rec, draw));
                }
                r
            },
            Material::Dielectric(m) => {
                let r = m.scatter(r_in, rec);
                proof {
                    let coin = choose|coin: Fixed|
                        coin.is_unit_sample() && r == #[trigger] m.scatter_spec(*r_in, *rec, coin);
                    let zero = Fixed::zero_spec();
                    let draw = Draw { ball: Vec3(zero, zero, zero), coin };
                    assert(draw.ball.in_unit_ball());
                    assert(draw.valid() && r == self.scatter_spec(*r_in, *rec, draw));
                }
                r
            },
        }
    }
}

/// A diffuse surface always scatters, and attenuates by its albedo,
/// whatever the random choice.
pub proof fn lemma_lambertian_attenuation(m: Lambertian, rec: HitRecord, unit: Vec3<Fixed>)
    ensures
        m.scatter_spec(rec, unit) matches Some(s) && s.0 == m.albedo,
{
}

/// A diffuse surface scatters along the normal, or along a direction that
/// is not near zero and so has a length of at least 43 units of 2^-32. The
/// scattered ray starts at the hit point.
pub proof fn lemma_lambertian_direction(m: Lambertian, rec: HitRecord, unit: Vec3<Fixed>)
    ensures
        m.scatter_spec(rec, unit) matches Some(s) && s.1.origin == rec.point && (s.1.direction
            == rec.normal || (!s.1.direction.near_zero_spec() && s.1.direction.length_spec().raw
            >= NEAR_ZERO_RAW)),
{
    let sum = rec.normal.plus(unit);
    lemma_hypot(sum.0, sum.1, sum.2);
}

/// Whatever a material scatters, it attenuates by its albedo.
pub proof fn lemma_scatter_attenuation(m: Material, r_in: Ray, rec: HitRecord, draw: Draw)
    ensures
        m.scatter_spec(r_in, rec, draw) matches Some(s) ==> s.0 == m.albedo_spec(),
{
}

/// Light that is not negative, attenuated by a color whose channels lie
/// between zero and one, stays not negative and does not grow in any
/// channel.
pub proof fn lemma_attenuation_bounded(attenuation: Vec3<Fixed>, light: Vec3<Fixed>)
    requires
        attenuation.is_fraction(),
        light.is_nonneg(),
    ensures
        attenuation.times(light).is_nonneg(),
        attenuation.times(light).none_above(light),
{
    lemma_times_fraction(attenuation.0, light.0);
    lemma_times_fraction(attenuation.1, light.1);
    lemma_times_fraction(attenuation.2, light.2);
}

/// A clear surface bends a ray that it does not reflect by Snell's law.
/// Where the normal is a unit vector, to within 2^-16 in squared length, the
/// incoming unit direction comes against it, the ratio of the indices lies
/// between 0 and 4 and the part of the refracted direction across the normal
/// is no longer than one, a ray that is not reflected leaves the hit point
/// unattenuated along a direction whose part across the normal is that of
/// the incoming unit direction times the ratio, and whose dot product with
/// the normal is minus the square root of one less the squared length of
/// that part, to within 2^-12.
pub proof fn lemma_dielectric_refracts(m: Dielectric, r_in: Ray, rec: HitRecord, coin: Fixed)
    requires
        small(rec.normal.0, 2) && small(rec.normal.1, 2) && small(rec.normal.2, 2),
        ONE_RAW - 0x1_0000 <= rec.normal.length_squared_spec().raw <= ONE_RAW + 0x1_0000,
        -ONE_RAW <= r_in.direction.unit_spec().dot_spec(rec.normal).raw <= 0,
        0 <= m.refraction_ratio_spec(rec.front_face).raw <= 4 * ONE_RAW,
        r_in.direction.unit_spec().refract_perp_spec(
            rec.normal,
            m.refraction_ratio_spec(rec.front_face),
        ).length_squared_spec().raw <= ONE_RAW,
        !m.reflects_spec(r_in, rec, coin),
    ensures
        m.scatter_spec(r_in, rec, coin) matches Some(s) && s.0 == Vec3(
            Fixed::one_spec(),
            Fixed::one_spec(),
            Fixed::one_spec(),
        ) && s.1.origin == rec.point && s.1.direction == r_in.direction.unit_spec().refract_spec(
            rec.normal,
            m.refraction_ratio_spec(rec.front_face),
        ),
        r_in.direction.unit_spec().refract_perp_spec(
            rec.normal,
            m.refraction_ratio_spec(rec.front_face),
        ) == r_in.direction.unit_spec().minus(
            rec.normal.scale(r_in.direction.unit_spec().dot_spec(rec.normal)),
        ).scale(m.refraction_ratio_spec(rec.front_face)),
        -0x10_0000 < r_in.direction.unit_spec().refract_spec(
            rec.normal,
            m.refraction_ratio_spec(rec.front_face),
        ).dot_spec(rec.normal).raw + Fixed::one_spec().minus(
            r_in.direction.unit_spec().refract_perp_spec(
                rec.normal,
                m.refraction_ratio_spec(rec.front_face),
            ).length_squared_spec(),
        ).sqrt_spec().raw < 0x10_0000,
{
    lemma_unit_bounded(r_in.direction);
    lemma_refract_snell(
        r_in.direction.unit_spec(),
        rec.normal,
        m.refraction_ratio_spec(rec.front_face),
    );
}

/// A metal without fuzz mirrors a ray that comes against the normal,
/// whatever the random choice. Where the normal is a unit vector, to within
/// 2^-16 in squared length, and the incoming unit direction makes a dot
/// product of at most -2^-12 with it, the ray is scattered from the hit
/// point along the mirrored direction, attenuated by the albedo, and the
/// part of the direction along the normal is that of the incoming direction
/// reversed, to within 2^-12.
pub proof fn lemma_metal_mirrors(m: Metal, r_in: Ray, rec: HitRecord, ball: Vec3<Fixed>)
    requires
        m.fuzz == Fixed::zero_spec(),
        small(rec.normal.0, 2) && small(rec.normal.1, 2) && small(rec.normal.2, 2),
        ONE_RAW - 0x1_0000 <= rec.normal.length_squared_spec().raw <= ONE_RAW + 0x1_0000,
        r_in.direction.unit_spec().dot_spec(rec.normal).raw <= -0x10_0000,
    ensures
        m.scatter_spec(r_in, rec, ball) matches Some(s) && s.0 == m.albedo && s.1.origin
            == rec.point && s.1.direction == Metal::mirrored_spec(r_in, rec) && -0x10_0000
            < s.1.direction.dot_spec(rec.normal).raw + r_in.direction.unit_spec().dot_spec(
            rec.normal,
        ).raw < 0x10_0000,
{
    let u = r_in.direction.unit_spec();
    let mirrored = Metal::mirrored_spec(r_in, rec);
    lemma_unit_bounded(r_in.direction);
    lemma_reflect_reverses(u, rec.normal);
    lemma_times_zero(ball.0);
    lemma_times_zero(ball.1);
    lemma_times_zero(ball.2);
    lemma_plus_zero(mirrored.0);
    lemma_plus_zero(mirrored.1);
    lemma_plus_zero(mirrored.2);
    assert(mirrored.plus(ball.scale(m.fuzz)) == mirrored);
}

/// A metal without fuzz absorbs a ray whose mirrored direction runs along
/// the surface, whatever the random choice.
pub proof fn lemma_metal_absorbs_grazing(m: Metal, r_in: Ray, rec: HitRecord, ball: Vec3<Fixed>)
    requires
        m.fuzz == Fixed::zero_spec(),
        Metal::mirrored_spec(r_in, rec).dot_spec(rec.normal).raw == 0,
    ensures
        m.scatter_spec(r_in, rec, ball) is None,
{
    let mirrored = Metal::mirrored_spec(r_in, rec);
    lemma_times_zero(ball.0);
    lemma_times_zero(ball.1);
    lemma_times_zero(ball.2);
    lemma_plus_zero(mirrored.0);
    lemma_plus_zero(mirrored.1);
    lemma_plus_zero(mirrored.2);
    assert(mirrored.plus(ball.scale(m.fuzz)) == mirrored);
}

} // verus!
