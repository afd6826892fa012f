//! The radiance estimator and the per-pixel sampling loop.

use vstd::prelude::*;
use std::ops::Range;
use crate::camera::Camera;
use crate::fixed::Fixed;
use crate::fixed::ONE_RAW;
use crate::fixed::lemma_quot_bound;
use crate::fixed::quot;
use crate::hit::Hittable;
use crate::hit::lemma_nearest_hit;
use crate::hit::nearest_hit;
use crate::material::Draw;
use crate::material::lemma_attenuation_bounded;
use crate::material::lemma_scatter_attenuation;
use crate::ray::Ray;
use crate::sphere::Sphere;
use crate::vec::Vec3;
use crate::vec::lemma_unit_bounded;

verus! {

/// No light.
pub open spec fn black_spec() -> Vec3<Fixed> {
    Vec3(Fixed::zero_spec(), Fixed::zero_spec(), Fixed::zero_spec())
}

/// The color of the background toward the horizon.
pub open spec fn horizon_spec() -> Vec3<Fixed> {
    Vec3(Fixed::one_spec(), Fixed::one_spec(), Fixed::one_spec())
}

/// The color of the background straight up: `(0.5, 0.7, 1.0)`.
pub open spec fn sky_spec() -> Vec3<Fixed> {
    Vec3(Fixed::ratio_spec(1, 2), Fixed::ratio_spec(7, 10), Fixed::one_spec())
}

/// The ray parameters at which a hit counts: from `0.001`, which keeps a
/// scattered ray from hitting the surface it leaves, up to any distance.
pub open spec fn visible_range_spec() -> Range<Fixed> {
    Range { start: Fixed::ratio_spec(1, 1000), end: Fixed::infinity_spec() }
}

/// The background seen along `ray`: with `t = 0.5 (y + 1)` for the height
/// `y` of the unit direction, the blend `(1 - t) horizon + t sky`.
pub open spec fn background_spec(ray: Ray) -> Vec3<Fixed> {
    let unit_direction = ray.direction.unit_spec();
    let t = Fixed::ratio_spec(1, 2).times(unit_direction.1.plus(Fixed::one_spec()));
    horizon_spec().scale(Fixed::one_spec().minus(t)).plus(sky_spec().scale(t))
}

/// The light that arrives along `ray` from the scene `world` over at most
/// `depth` bounces, where the `k`-th bounce uses the random choices
/// `draws[k]`: black once the bounces are used up; the background where
/// the ray hits nothing; black where the surface absorbs it; and else the
/// attenuation times the light that arrives along the scattered ray.
pub open spec fn radiance<H: Hittable>(ray: Ray, world: Seq<H>, depth: nat, draws: Seq<Draw>) -> Vec3<
    Fixed,
>
    decreases depth,
{
    if depth == 0 {
        black_spec()
    } else {
        match nearest_hit(world, ray, visible_range_spec()) {
            Some(rec) => match rec.mat.scatter_spec(ray, rec, draws[0]) {
                Some((attenuation, scattered)) => attenuation.times(
                    radiance(scattered, world, (depth - 1) as nat, draws.skip(1)),
                ),
                None => black_spec(),
            },
            None => background_spec(ray),
        }
    }
}

/// `draws` holds admissible random choices for `depth` bounces.
pub open spec fn valid_draws(draws: Seq<Draw>, depth: nat) -> bool {
    &&& draws.len() == depth
    &&& forall|k: int| 0 <= k < draws.len() ==> (#[trigger] draws[k]).valid()
}

/// `color` is what the estimator can return for `ray`: the radiance for
/// some admissible random choices.
pub open spec fn is_estimate<H: Hittable>(ray: Ray, world: Seq<H>, depth: nat, color: Vec3<Fixed>) -> bool {
    exists|draws: Seq<Draw>| valid_draws(draws, depth) && color == #[trigger] radiance(ray, world, depth, draws)
}

/// A bounce never adds light. Where the ray hits a surface whose albedo
/// lies between zero and one in every channel, and the light that arrives
/// along the scattered ray is not negative, the light that arrives along
/// the ray is not negative either, and in no channel more than what arrives
/// along the scattered ray.
pub proof fn lemma_bounce_never_adds_light<H: Hittable>(
    ray: Ray,
    world: Seq<H>,
    depth: nat,
    draws: Seq<Draw>,
)
    requires
        depth > 0,
        nearest_hit(world, ray, visible_range_spec()) matches Some(rec) && rec.mat.albedo_spec().is_fraction()
            && (rec.mat.scatter_spec(ray, rec, draws[0]) matches Some(s) ==> radiance(
            s.1,
            world,
            (depth - 1) as nat,
            draws.skip(1),
        ).is_nonneg()),
    ensures
        radiance(ray, world, depth, draws).is_nonneg(),
        nearest_hit(world, ray, visible_range_spec()) matches Some(rec) && (rec.mat.scatter_spec(
            ray,
            rec,
            draws[0],
        ) matches Some(s) ==> radiance(ray, world, depth, draws).none_above(
            radiance(s.1, world, (depth - 1) as nat, draws.skip(1)),
        )),
{
    let rec = nearest_hit(world, ray, visible_range_spec())->0;
    if let Some(s) = rec.mat.scatter_spec(ray, rec, draws[0]) {
        lemma_scatter_attenuation(rec.mat, ray, rec, draws[0]);
        lemma_attenuation_bounded(s.0, radiance(s.1, world, (depth - 1) as nat, draws.skip(1)));
    }
}

/// Every channel of the background lies between one half and one, whatever
/// the ray.
pub proof fn lemma_background_bounded(ray: Ray)
    ensures
        ONE_RAW / 2 <= background_spec(ray).0.raw <= ONE_RAW,
        ONE_RAW / 2 <= background_spec(ray).1.raw <= ONE_RAW,
        ONE_RAW / 2 <= background_spec(ray).2.raw <= ONE_RAW,
{
    let s = 0x1_0000_0000int;
    let u = ray.direction.unit_spec();
    lemma_unit_bounded(ray.direction);
    let half = Fixed::ratio_spec(1, 2);
    let seven_tenths = Fixed::ratio_spec(7, 10);
    assert(half.raw == 0x8000_0000 && seven_tenths.raw == 3006477107) by {
        assert(Fixed::from_int_spec(1).raw == s);
        assert(Fixed::from_int_spec(2).raw == 2 * s);
        assert(Fixed::from_int_spec(7).raw == 7 * s);
        assert(Fixed::from_int_spec(10).raw == 10 * s);
        assert(quot(s * 0x1_0000_0000, 2 * s) == 0x8000_0000);
        assert(quot(7 * s * 0x1_0000_0000, 10 * s) == 3006477107);
    }
    let sum = u.1.plus(Fixed::one_spec());
    assert(0 <= sum.raw <= 2 * s);
    let t = half.times(sum);
    assert(half.raw * sum.raw == 0x8000_0000 * sum.raw);
    assert(0 <= t.raw <= s && 2 * t.raw <= sum.raw);
    let rest = Fixed::one_spec().minus(t);
    assert(rest.raw == s - t.raw);
    let one = Fixed::one_spec();
    assert(one.raw * rest.raw == 0x1_0000_0000 * rest.raw);
    assert(one.times(rest) == rest);
    assert(half.raw * t.raw == 0x8000_0000 * t.raw);
    assert(seven_tenths.raw * t.raw == 3006477107 * t.raw);
    assert(one.raw * t.raw == 0x1_0000_0000 * t.raw);
    assert(one.times(t) == t);
}

/// Every sphere of the scene has a material that passes on a share of the
/// light between zero and one in every channel.
pub open spec fn fractional_albedos(world: Seq<Sphere>) -> bool {
    forall|i: int| 0 <= i < world.len() ==> (#[trigger] world[i]).mat.albedo_spec().is_fraction()
}

/// No path creates light. In a scene of spheres whose albedos lie between
/// zero and one, every channel of the light that arrives along a ray lies
/// between zero and one, whatever the ray, the number of bounces and the
/// random choices.
pub proof fn lemma_radiance_bounded(ray: Ray, world: Seq<Sphere>, depth: nat, draws: Seq<Draw>)
    requires
        fractional_albedos(world),
    ensures
        radiance(ray, world, depth, draws).is_fraction(),
    decreases depth,
{
    if depth > 0 {
        let range = visible_range_spec();
        match nearest_hit(world, ray, range) {
            Some(rec) => {
                lemma_nearest_hit(world, ray, range);
                let i = choose|i: int|
                    0 <= i < world.len() && (#[trigger] world[i]).hit_spec(ray, range) == Some(rec);
                assert(rec.mat == world[i].mat);
                if let Some(s) = rec.mat.scatter_spec(ray, rec, draws[0]) {
                    let onward = radiance(s.1, world, (depth - 1) as nat, draws.skip(1));
                    lemma_radiance_bounded(s.1, world, (depth - 1) as nat, draws.skip(1));
                    lemma_scatter_attenuation(rec.mat, ray, rec, draws[0]);
                    lemma_attenuation_bounded(s.0, onward);
                }
            },
            None => {
                lemma_background_bounded(ray);
            },
        }
    }
}

/// Every estimate lies between zero and one in every channel, in a scene
/// of spheres whose albedos lie between zero and one.
pub proof fn lemma_estimate_bounded(ray: Ray, world: Seq<Sphere>, depth: nat, color: Vec3<Fixed>)
    requires
        fractional_albedos(world),
        is_estimate(ray, world, depth, color),
    ensures
        color.is_fraction(),
{
    let draws = choose|draws: Seq<Draw>|
        valid_draws(draws, depth) && color == #[trigger] radiance(ray, world, depth, draws);
    lemma_radiance_bounded(ray, world, depth, draws);
}

/// The sum of colors that lie between zero and one lies between zero and
/// their number, in every channel.
pub proof fn lemma_total_bounded(colors: Seq<Vec3<Fixed>>)
    requires
        forall|k: int| 0 <= k < colors.len() ==> (#[trigger] colors[k]).is_fraction(),
    ensures
        0 <= total_spec(colors).0.raw <= colors.len() * ONE_RAW,
        0 <= total_spec(colors).1.raw <= colors.len() * ONE_RAW,
        0 <= total_spec(colors).2.raw <= colors.len() * ONE_RAW,
    decreases colors.len(),
{
    if colors.len() > 0 {
        let before = colors.drop_last();
        assert forall|k: int| 0 <= k < before.len() implies (#[trigger] before[k]).is_fraction() by {
            assert(before[k] == colors[k]);
        }
        lemma_total_bounded(before);
        assert(colors.last() == colors[colors.len() - 1]);
        assert(colors.len() * ONE_RAW == before.len() * ONE_RAW + ONE_RAW) by (nonlinear_arith)
            requires
                colors.len() == before.len() + 1,
        ;
    }
}

/// The mean of colors that lie between zero and one lies between zero and
/// one, in every channel.
pub proof fn lemma_mean_bounded(colors: Seq<Vec3<Fixed>>)
    requires
        forall|k: int| 0 <= k < colors.len() ==> (#[trigger] colors[k]).is_fraction(),
    ensures
        mean_spec(colors).is_fraction(),
{
    let total = total_spec(colors);
    let count = Fixed::from_int_spec(colors.len() as int);
    lemma_total_bounded(colors);
    lemma_share_bounded(total.0, count, colors.len() as int);
    lemma_share_bounded(total.1, count, colors.len() as int);
    lemma_share_bounded(total.2, count, colors.len() as int);
}

/// A sum of at most `n` ones, divided by `n`, lies between zero and one.
proof fn lemma_share_bounded(total: Fixed, count: Fixed, n: int)
    requires
        0 <= n,
        count == Fixed::from_int_spec(n),
        0 <= total.raw <= n * ONE_RAW,
    ensures
        0 <= total.over(count).raw <= ONE_RAW,
{
    let s = 0x1_0000_0000int;
    if n == 0 {
        assert(n * ONE_RAW == 0) by (nonlinear_arith)
            requires
                n == 0,
        ;
    } else {
        assert(n * ONE_RAW >= ONE_RAW) by (nonlinear_arith)
            requires
                n >= 1,
        ;
        let d = count.raw as int;
        assert(d > 0 && total.raw <= d);
        let x = total.raw * s;
        assert(0 <= x < d * (s + 1)) by (nonlinear_arith)
            requires
                x == total.raw * s,
                0 <= total.raw <= d,
                d > 0,
                s == 0x1_0000_0000,
        ;
        lemma_quot_bound(x, d, s);
        assert(quot(x, d) >= 0) by {
            vstd::arithmetic::div_mod::lemma_div_pos_is_pos(x, d);
        }
    }
}

/// With no bounces left the estimate is black, whatever the ray, the scene
/// and the random choices.
pub proof fn lemma_depth_zero_is_black<H: Hittable>(ray: Ray, world: Seq<H>, draws: Seq<Draw>)
    ensures
        radiance(ray, world, 0, draws) == black_spec(),
{
}

pub fn black() -> (r: Vec3<Fixed>)
    ensures
        r == black_spec(),
{
    Vec3(Fixed::zero(), Fixed::zero(), Fixed::zero())
}

pub fn visible_range() -> (r: Range<Fixed>)
    ensures
        r == visible_range_spec(),
{
    Range { start: Fixed::ratio(1, 1000), end: Fixed::infinity() }
}

pub fn background(r: Ray) -> (color: Vec3<Fixed>)
    ensures
        color == background_spec(r),
{
    let unit_direction = r.direction.unit();
    let t = Fixed::ratio(1, 2) * (unit_direction.1 + Fixed::one());
    Vec3(Fixed::one(), Fixed::one(), Fixed::one()) * (Fixed::one() - t) + Vec3(
        Fixed::ratio(1, 2),
        Fixed::ratio(7, 10),
        Fixed::one(),
    ) * t
}

/// Random choices that are admissible for any material.
proof fn filler_draws(depth: nat) -> (draws: Seq<Draw>)
    ensures
        valid_draws(draws, depth),
{
    let zero = Fixed::zero_spec();
    let draw = Draw { ball: Vec3(zero, zero, zero), coin: zero };
    assert(draw.valid());
    Seq::new(depth, |k: int| draw)
}

/// Estimates the light that arrives along `r`, following the ray through
/// at most `depth` bounces and drawing the random choices as it goes.
pub fn ray_color<H: Hittable>(r: Ray, world: &[H], depth: u32) -> (color: Vec3<Fixed>)
    ensures
        depth == 0 ==> color == black_spec(),
        is_estimate(r, world@, depth as nat, color),
    decreases depth,
{
    if depth == 0 {
        proof {
            assert(valid_draws(Seq::<Draw>::empty(), 0));
            assert(black_spec() == radiance(r, world@, 0, Seq::<Draw>::empty()));
        }
        return black();
    }
    if let Some(rec) = world.hit(r, visible_range()) {
        let scattering = rec.mat.scatter(&r, &rec);
        let ghost draw = choose|draw: Draw|
            draw.valid() && scattering == #[trigger] rec.mat.scatter_spec(r, rec, draw);
        if let Some((attenuation, scattered)) = scattering {
            let onward = ray_color(scattered, world, depth - 1);
            proof {
                let rest = choose|draws: Seq<Draw>|
                    valid_draws(draws, (depth - 1) as nat) && onward == #[trigger] radiance(
                        scattered,
                        world@,
                        (depth - 1) as nat,
                        draws,
                    );
                let draws = seq![draw] + rest;
                assert(draws.skip(1) == rest);
                assert(valid_draws(draws, depth as nat));
                assert(attenuation.times(onward) == radiance(r, world@, depth as nat, draws));
            }
            return attenuation * onward;
        }
        proof {
            let filler = filler_draws((depth - 1) as nat);
            let draws = seq![draw] + filler;
            assert(valid_draws(draws, depth as nat));
            assert(black_spec() == radiance(r, world@, depth as nat, draws));
        }
        return black();
    }
    proof {
        let draws = filler_draws(depth as nat);
        assert(background_spec(r) == radiance(r, world@, depth as nat, draws));
    }
    background(r)
}

/// The light that arrives along `r` over at most `depth` bounces, where the
/// `k`-th bounce uses the random choices `draws[k]`.
pub fn ray_color_with<H: Hittable>(r: Ray, world: &[H], depth: u32, draws: &[Draw]) -> (color: Vec3<
    Fixed,
>)
    requires
        depth <= draws@.len(),
    ensures
        color == radiance(r, world@, depth as nat, draws@),
{
    assert(draws@.skip(0) == draws@);
    trace(r, world, depth, draws, 0)
}

/// The light that arrives along `r` over at most `depth` bounces, where the
/// `k`-th bounce uses the random choices `draws[at + k]`.
fn trace<H: Hittable>(r: Ray, world: &[H], depth: u32, draws: &[Draw], at: usize) -> (color: Vec3<
    Fixed,
>)
    requires
        at + depth <= draws@.len(),
    ensures
        color == radiance(r, world@, depth as nat, draws@.skip(at as int)),
    decreases depth,
{
    if depth == 0 {
        return black();
    }
    if let Some(rec) = world.hit(r, visible_range()) {
        assert(draws@.skip(at as int)[0] == draws@[at as int]);
        assert(draws@.skip(at as int).skip(1) == draws@.skip(at + 1));
        if let Some((attenuation, scattered)) = rec.mat.scatter_with(&r, &rec, &draws[at]) {
            return attenuation * trace(scattered, world, depth - 1, draws, at + 1);
        }
        return black();
    }
    background(r)
}

/// The screen coordinate of a point of pixel `index`, out of `extent`
/// pixels, that lies the fraction `jitter` of a pixel beyond the pixel's
/// start: `(index + jitter) / (extent - 1)`.
pub open spec fn screen_coord_spec(index: u32, jitter: Fixed, extent: u32) -> Fixed {
    Fixed::from_int_spec(index as int).plus(jitter).over(Fixed::from_int_spec(extent - 1))
}

/// `color` is what one sample of pixel `(i, j)` of an image of `width` by
/// `height` pixels can give: an estimate of the light along a ray that the
/// camera can send toward a point of that pixel.
pub open spec fn is_pixel_sample<H: Hittable>(
    cam: Camera,
    world: Seq<H>,
    i: u32,
    j: u32,
    width: u32,
    height: u32,
    depth: nat,
    color: Vec3<Fixed>,
) -> bool {
    exists|du: Fixed, dv: Fixed, ray: Ray|
        {
            &&& du.is_unit_sample()
            &&& dv.is_unit_sample()
            &&& #[trigger] cam.sends(
                screen_coord_spec(i, du, width),
                screen_coord_spec(j, dv, height),
                ray,
            )
            &&& is_estimate(ray, world, depth, color)
        }
}

/// The sum of `colors`, each added to the sum of those before it.
pub open spec fn total_spec(colors: Seq<Vec3<Fixed>>) -> Vec3<Fixed>
    decreases colors.len(),
{
    if colors.len() == 0 {
        black_spec()
    } else {
        colors.last().plus(total_spec(colors.drop_last()))
    }
}

/// The sum of `colors` divided by their number.
pub open spec fn mean_spec(colors: Seq<Vec3<Fixed>>) -> Vec3<Fixed> {
    total_spec(colors).shrink(Fixed::from_int_spec(colors.len() as int))
}

pub fn screen_coord(index: u32, jitter: Fixed, extent: u32) -> (r: Fixed)
    ensures
        r == screen_coord_spec(index, jitter, extent),
{
    (Fixed::from_int(index as i64) + jitter) / Fixed::from_int(extent as i64 - 1)
}

/// The arithmetic mean of `colors`.
pub fn mean(colors: &[Vec3<Fixed>]) -> (r: Vec3<Fixed>)
    ensures
        r == mean_spec(colors@),
{
    let mut acc = black();
    let mut k: usize = 0;
    while k < colors.len()
        invariant
            k <= colors@.len(),
            acc == total_spec(colors@.take(k as int)),
        decreases colors@.len() - k,
    {
        assert(colors@.take(k + 1).drop_last() == colors@.take(k as int));
        acc = colors[k] + acc;
        k = k + 1;
    }
    assert(colors@.take(k as int) == colors@);
    acc / Fixed::from_usize(colors.len())
}

/// One sample of pixel `(i, j)`: the estimate along a ray toward a random
/// point of the pixel.
pub fn sample_pixel<H: Hittable>(
    cam: &Camera,
    world: &[H],
    i: u32,
    j: u32,
    width: u32,
    height: u32,
    depth: u32,
) -> (color: Vec3<Fixed>)
    ensures
        is_pixel_sample(*cam, world@, i, j, width, height, depth as nat, color),
{
    let du = Fixed::random();
    let dv = Fixed::random();
    let u = screen_coord(i, du, width);
    let v = screen_coord(j, dv, height);
    let r = cam.get_ray(u, v);
    let color = ray_color(r, world, depth);
    assert(cam.sends(screen_coord_spec(i, du, width), screen_coord_spec(j, dv, height), r));
    color
}

/// The color of pixel `(i, j)`: the mean of `samples` samples.
pub fn pixel_color<H: Hittable>(
    cam: &Camera,
    world: &[H],
    i: u32,
    j: u32,
    width: u32,
    height: u32,
    samples: u32,
    depth: u32,
) -> (color: Vec3<Fixed>)
    ensures
        exists|colors: Seq<Vec3<Fixed>>|
            {
                &&& colors.len() == samples
                &&& forall|k: int|
                    0 <= k < colors.len() ==> is_pixel_sample(
                        *cam,
                        world@,
                        i,
                        j,
                        width,
                        height,
                        depth as nat,
                        #[trigger] colors[k],
                    )
                &&& color == mean_spec(colors)
            },
{
    let mut colors: Vec<Vec3<Fixed>> = Vec::new();
    let mut k: u32 = 0;
    while k < samples
        invariant
            k <= samples,
            colors@.len() == k,
            forall|n: int|
                0 <= n < colors@.len() ==> is_pixel_sample(
                    *cam,
                    world@,
                    i,
                    j,
                    width,
                    height,
                    depth as nat,
                    #[trigger] colors@[n],
                ),
        decreases samples - k,
    {
        colors.push(sample_pixel(cam, world, i, j, width, height, depth));
        k = k + 1;
    }
    mean(colors.as_slice())
}

} // verus!
