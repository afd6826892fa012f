//! Three-component vectors, used as points, directions and colors.

use vstd::prelude::*;
use vstd::std_specs::ops::AddSpec;
use vstd::std_specs::ops::SubSpec;
use vstd::std_specs::ops::MulSpec;
use vstd::std_specs::ops::DivSpec;
use vstd::std_specs::ops::NegSpec;
use std::ops::Add;
use std::ops::Sub;
use std::ops::Mul;
use std::ops::Div;
use std::ops::Neg;
use crate::fixed::Fixed;
use crate::fixed::ONE_RAW;
use crate::fixed::magnitude;
use crate::fixed::product;
use crate::fixed::lemma_times_commutes;
use crate::fixed::lemma_times_negate;
use crate::fixed::lemma_over_hypot;
use crate::fixed::lemma_plus_negate;
use crate::fixed::lemma_times_self_nonneg;
use std::ops::Range;

verus! {

/// The least raw count of a number that is not below 10^-8.
pub const NEAR_ZERO_RAW: i64 = 43;

/// How many candidates a rejection sampler draws before it settles for the
/// origin.
pub const SAMPLE_TRIES: u32 = 64;

/// A vector of three components. The arithmetic operators work component
/// by component on any component type that has them; the geometry is
/// defined for fixed-point components.
#[derive(Clone, Copy, Debug)]
pub struct Vec3<T>(pub T, pub T, pub T);

impl<T: Add<Output = T>> Add for Vec3<T> {
    type Output = Self;

    fn add(self, rhs: Self) -> (r: Self) {
        Vec3(self.0 + rhs.0, self.1 + rhs.1, self.2 + rhs.2)
    }
}

impl<T: Add<Output = T>> vstd::std_specs::ops::AddSpecImpl for Vec3<T> {
    open spec fn obeys_add_spec() -> bool {
        T::obeys_add_spec()
    }

    open spec fn add_req(self, rhs: Self) -> bool {
        self.0.add_req(rhs.0) && self.1.add_req(rhs.1) && self.2.add_req(rhs.2)
    }

    open spec fn add_spec(self, rhs: Self) -> Self {
        Vec3(self.0.add_spec(rhs.0), self.1.add_spec(rhs.1), self.2.add_spec(rhs.2))
    }
}

impl<T: Sub<Output = T>> Sub for Vec3<T> {
    type Output = Self;

    fn sub(self, rhs: Self) -> (r: Self) {
        Vec3(self.0 - rhs.0, self.1 - rhs.1, self.2 - rhs.2)
    }
}

impl<T: Sub<Output = T>> vstd::std_specs::ops::SubSpecImpl for Vec3<T> {
    open spec fn obeys_sub_spec() -> bool {
        T::obeys_sub_spec()
    }

    open spec fn sub_req(self, rhs: Self) -> bool {
        self.0.sub_req(rhs.0) && self.1.sub_req(rhs.1) && self.2.sub_req(rhs.2)
    }

    open spec fn sub_spec(self, rhs: Self) -> Self {
        Vec3(self.0.sub_spec(rhs.0), self.1.sub_spec(rhs.1), self.2.sub_spec(rhs.2))
    }
}

impl<T: Neg<Output = T>> Neg for Vec3<T> {
    type Output = Self;

    fn neg(self) -> (r: Self) {
        Vec3(self.0.neg(), self.1.neg(), self.2.neg())
    }
}

impl<T: Neg<Output = T>> vstd::std_specs::ops::NegSpecImpl for Vec3<T> {
    open spec fn obeys_neg_spec() -> bool {
        T::obeys_neg_spec()
    }

    open spec fn neg_req(self) -> bool {
        self.0.neg_req() && self.1.neg_req() && self.2.neg_req()
    }

    open spec fn neg_spec(self) -> Self {
        Vec3(self.0.neg_spec(), self.1.neg_spec(), self.2.neg_spec())
    }
}

impl<T: Mul<Output = T>> Mul for Vec3<T> {
    type Output = Self;

    fn mul(self, rhs: Self) -> (r: Self) {
        Vec3(self.0 * rhs.0, self.1 * rhs.1, self.2 * rhs.2)
    }
}

impl<T: Mul<Output = T>> vstd::std_specs::ops::MulSpecImpl for Vec3<T> {
    open spec fn obeys_mul_spec() -> bool {
        T::obeys_mul_spec()
    }

    open spec fn mul_req(self, rhs: Self) -> bool {
        self.0.mul_req(rhs.0) && self.1.mul_req(rhs.1) && self.2.mul_req(rhs.2)
    }

    open spec fn mul_spec(self, rhs: Self) -> Self {
        Vec3(self.0.mul_spec(rhs.0), self.1.mul_spec(rhs.1), self.2.mul_spec(rhs.2))
    }
}

impl<T: Copy + Mul<Output = T>> Mul<T> for Vec3<T> {
    type Output = Self;

    fn mul(self, rhs: T) -> (r: Self) {
        Vec3(self.0 * rhs, self.1 * rhs, self.2 * rhs)
    }
}

impl<T: Copy + Mul<Output = T>> vstd::std_specs::ops::MulSpecImpl<T> for Vec3<T> {
    open spec fn obeys_mul_spec() -> bool {
        T::obeys_mul_spec()
    }

    open spec fn mul_req(self, rhs: T) -> bool {
        self.0.mul_req(rhs) && self.1.mul_req(rhs) && self.2.mul_req(rhs)
    }

    open spec fn mul_spec(self, rhs: T) -> Self {
        Vec3(self.0.mul_spec(rhs), self.1.mul_spec(rhs), self.2.mul_spec(rhs))
    }
}

impl<T: Div<Output = T>> Div for Vec3<T> {
    type Output = Self;

    fn div(self, rhs: Self) -> (r: Self) {
        Vec3(self.0 / rhs.0, self.1 / rhs.1, self.2 / rhs.2)
    }
}

impl<T: Div<Output = T>> vstd::std_specs::ops::DivSpecImpl for Vec3<T> {
    open spec fn obeys_div_spec() -> bool {
        T::obeys_div_spec()
    }

    open spec fn div_req(self, rhs: Self) -> bool {
        self.0.div_req(rhs.0) && self.1.div_req(rhs.1) && self.2.div_req(rhs.2)
    }

    open spec fn div_spec(self, rhs: Self) -> Self {
        Vec3(self.0.div_spec(rhs.0), self.1.div_spec(rhs.1), self.2.div_spec(rhs.2))
    }
}

impl<T: Copy + Div<Output = T>> Div<T> for Vec3<T> {
    type Output = Self;

    fn div(self, rhs: T) -> (r: Self) {
        Vec3(self.0 / rhs, self.1 / rhs, self.2 / rhs)
    }
}

impl<T: Copy + Div<Output = T>> vstd::std_specs::ops::DivSpecImpl<T> for Vec3<T> {
    open spec fn obeys_div_spec() -> bool {
        T::obeys_div_spec()
    }

    open spec fn div_req(self, rhs: T) -> bool {
        self.0.div_req(rhs) && self.1.div_req(rhs) && self.2.div_req(rhs)
    }

    open spec fn div_spec(self, rhs: T) -> Self {
        Vec3(self.0.div_spec(rhs), self.1.div_spec(rhs), self.2.div_spec(rhs))
    }
}

impl Vec3<Fixed> {
    /// Every component lies in the symmetric range.
    pub open spec fn wf(self) -> bool {
        self.0.wf() && self.1.wf() && self.2.wf()
    }

    /// The component-wise sum.
    pub open spec fn plus(self, rhs: Vec3<Fixed>) -> Vec3<Fixed> {
        Vec3(self.0.plus(rhs.0), self.1.plus(rhs.1), self.2.plus(rhs.2))
    }

    /// The component-wise difference.
    pub open spec fn minus(self, rhs: Vec3<Fixed>) -> Vec3<Fixed> {
        Vec3(self.0.minus(rhs.0), self.1.minus(rhs.1), self.2.minus(rhs.2))
    }

    /// The opposite vector.
    pub open spec fn negate(self) -> Vec3<Fixed> {
        Vec3(self.0.negate(), self.1.negate(), self.2.negate())
    }

    /// The component-wise product.
    pub open spec fn times(self, rhs: Vec3<Fixed>) -> Vec3<Fixed> {
        Vec3(self.0.times(rhs.0), self.1.times(rhs.1), self.2.times(rhs.2))
    }

    /// Each component multiplied by `k`.
    pub open spec fn scale(self, k: Fixed) -> Vec3<Fixed> {
        Vec3(self.0.times(k), self.1.times(k), self.2.times(k))
    }

    /// Each component divided by `k`.
    pub open spec fn shrink(self, k: Fixed) -> Vec3<Fixed> {
        Vec3(self.0.over(k), self.1.over(k), self.2.over(k))
    }

    /// The dot product: the three products summed from the left.
    pub open spec fn dot_spec(self, rhs: Vec3<Fixed>) -> Fixed {
        self.0.times(rhs.0).plus(self.1.times(rhs.1)).plus(self.2.times(rhs.2))
    }

    /// The dot product without rounding: the exact sum of the products of
    /// the raw counts, in units of 2^-64.
    pub open spec fn dot_exact(self, rhs: Vec3<Fixed>) -> int {
        self.0.raw * rhs.0.raw + self.1.raw * rhs.1.raw + self.2.raw * rhs.2.raw
    }

    /// The cross product.
    pub open spec fn cross_spec(self, rhs: Vec3<Fixed>) -> Vec3<Fixed> {
        Vec3(
            self.1.times(rhs.2).minus(self.2.times(rhs.1)),
            self.2.times(rhs.0).minus(self.0.times(rhs.2)),
            self.0.times(rhs.1).minus(self.1.times(rhs.0)),
        )
    }

    /// The dot product of the vector with itself.
    pub open spec fn length_squared_spec(self) -> Fixed {
        self.dot_spec(self)
    }

    /// The length: the square root of the exact sum of the squares of the
    /// coordinates, rounded down once.
    pub open spec fn length_spec(self) -> Fixed {
        Fixed::hypot_spec(self.0, self.1, self.2)
    }

    /// The vector divided by its length.
    pub open spec fn unit_spec(self) -> Vec3<Fixed> {
        self.shrink(self.length_spec())
    }

    /// Every component is smaller in magnitude than 10^-8.
    pub open spec fn near_zero_spec(self) -> bool {
        &&& magnitude(self.0.raw as int) < NEAR_ZERO_RAW
        &&& magnitude(self.1.raw as int) < NEAR_ZERO_RAW
        &&& magnitude(self.2.raw as int) < NEAR_ZERO_RAW
    }

    /// The mirror image of the vector in the plane whose normal is `normal`:
    /// `v - 2 (v . n) n`, with the factors taken in the order `(n 2) (v . n)`.
    pub open spec fn reflect_spec(self, normal: Vec3<Fixed>) -> Vec3<Fixed> {
        self.minus(normal.scale(Fixed::from_int_spec(2)).scale(self.dot_spec(normal)))
    }

    /// The cosine of the angle between the reversed unit vector `self` and
    /// the unit normal, capped at one.
    pub open spec fn cos_theta_spec(self, normal: Vec3<Fixed>) -> Fixed {
        self.dot_spec(normal).negate().min_spec(Fixed::one_spec())
    }

    /// The part of the refracted direction that is perpendicular to the
    /// normal.
    pub open spec fn refract_perp_spec(self, normal: Vec3<Fixed>, etai_over_etat: Fixed) -> Vec3<
        Fixed,
    > {
        self.plus(normal.scale(self.cos_theta_spec(normal))).scale(etai_over_etat)
    }

    /// The direction of a unit vector after it crosses a surface with unit
    /// normal `normal` against it, where `etai_over_etat` is the ratio of the
    /// refractive indices: the perpendicular part `ratio (v + cos n)` plus the
    /// parallel part `-sqrt|1 - |perp|^2| n`.
    pub open spec fn refract_spec(self, normal: Vec3<Fixed>, etai_over_etat: Fixed) -> Vec3<Fixed> {
        let perp = self.refract_perp_spec(normal, etai_over_etat);
        let parallel = normal.scale(
            Fixed::one_spec().minus(perp.length_squared_spec()).abs_spec().sqrt_spec().negate(),
        );
        perp.plus(parallel)
    }

    /// Every component is at least zero and below one.
    pub open spec fn is_unit_sample(self) -> bool {
        self.0.is_unit_sample() && self.1.is_unit_sample() && self.2.is_unit_sample()
    }

    /// The point of the cube over `range` that the sample `u` of the unit
    /// cube picks: `u (end - start) + start` in each component.
    pub open spec fn spread_spec(u: Vec3<Fixed>, range: Range<Fixed>) -> Vec3<Fixed> {
        let ones = Vec3(Fixed::one_spec(), Fixed::one_spec(), Fixed::one_spec());
        u.scale(range.end.minus(range.start)).plus(ones.scale(range.start))
    }

    /// No component is negative.
    pub open spec fn is_nonneg(self) -> bool {
        0 <= self.0.raw && 0 <= self.1.raw && 0 <= self.2.raw
    }

    /// Every component lies between zero and one, both included.
    pub open spec fn is_fraction(self) -> bool {
        0 <= self.0.raw <= ONE_RAW && 0 <= self.1.raw <= ONE_RAW && 0 <= self.2.raw <= ONE_RAW
    }

    /// No component is above the same component of `other`.
    pub open spec fn none_above(self, other: Vec3<Fixed>) -> bool {
        self.0.raw <= other.0.raw && self.1.raw <= other.1.raw && self.2.raw <= other.2.raw
    }

    /// The zero vector.
    pub open spec fn origin_spec() -> Vec3<Fixed> {
        Vec3(Fixed::zero_spec(), Fixed::zero_spec(), Fixed::zero_spec())
    }

    /// The interval from -1 to 1, over which the ball sampler draws its
    /// candidates.
    pub open spec fn cube_spec() -> Range<Fixed> {
        Range { start: Fixed::one_spec().negate(), end: Fixed::one_spec() }
    }

    /// The vector is a point of the cube `[-1, 1)^3` that some sample of the
    /// unit cube picks.
    pub open spec fn is_cube_candidate(self) -> bool {
        exists|u: Vec3<Fixed>|
            u.is_unit_sample() && self == #[trigger] Vec3::spread_spec(u, Vec3::cube_spec())
    }

    /// The vector is a point of the square `[-1, 1) x [-1, 1)` in the plane
    /// `z = 0` that some two samples of the unit interval pick.
    pub open spec fn is_disk_candidate(self) -> bool {
        exists|a: Fixed, b: Fixed|
            a.is_unit_sample() && b.is_unit_sample() && self == #[trigger] Vec3::disk_candidate_spec(
                a,
                b,
            )
    }

    /// The first of `candidates` that lies inside the unit ball, or the
    /// origin if none does.
    pub open spec fn first_in_ball_spec(candidates: Seq<Vec3<Fixed>>) -> Vec3<Fixed>
        decreases candidates.len(),
    {
        if candidates.len() == 0 {
            Vec3::origin_spec()
        } else if candidates[0].in_unit_ball() {
            candidates[0]
        } else {
            Vec3::first_in_ball_spec(candidates.skip(1))
        }
    }

    /// The vector lies strictly inside the unit ball.
    pub open spec fn in_unit_ball(self) -> bool {
        self.length_squared_spec().raw < ONE_RAW
    }

    /// The point of the square `[-1, 1) x [-1, 1)` in the plane `z = 0` that
    /// two samples of the unit interval pick.
    pub open spec fn disk_candidate_spec(a: Fixed, b: Fixed) -> Vec3<Fixed> {
        Vec3(a, b, Fixed::zero_spec()).scale(Fixed::from_int_spec(2)).minus(
            Vec3(Fixed::one_spec(), Fixed::one_spec(), Fixed::zero_spec()),
        )
    }

    /// The byte that stands for a color channel of intensity `c`: the
    /// gamma-corrected intensity `sqrt(c)` times `255.999`, held between 0 and
    /// 255 and rounded down.
    pub open spec fn channel_spec(c: Fixed) -> int {
        let scaled = Fixed::ratio_spec(255999, 1000).times(c.sqrt_spec());
        if scaled.raw < 0 {
            0
        } else if scaled.raw > 255 * ONE_RAW {
            255
        } else {
            (scaled.raw as int) / (ONE_RAW as int)
        }
    }

    pub fn dot(self, rhs: Vec3<Fixed>) -> (r: Fixed)
        ensures
            r == self.dot_spec(rhs),
    {
        self.0 * rhs.0 + self.1 * rhs.1 + self.2 * rhs.2
    }

    /// Whether the two vectors make a negative dot product, decided
    /// without rounding.
    pub fn opposes(self, rhs: Vec3<Fixed>) -> (r: bool)
        ensures
            r == (self.dot_exact(rhs) < 0),
    {
        let mut above: u128 = 0;
        let mut below: u128 = 0;
        let p0 = product(self.0, rhs.0);
        if p0 >= 0 {
            above = above + p0 as u128;
        } else {
            below = below + (-p0) as u128;
        }
        let p1 = product(self.1, rhs.1);
        if p1 >= 0 {
            above = above + p1 as u128;
        } else {
            below = below + (-p1) as u128;
        }
        let p2 = product(self.2, rhs.2);
        if p2 >= 0 {
            above = above + p2 as u128;
        } else {
            below = below + (-p2) as u128;
        }
        assert(above - below == self.dot_exact(rhs));
        below > above
    }

    pub fn cross(self, rhs: Vec3<Fixed>) -> (r: Vec3<Fixed>)
        ensures
            r == self.cross_spec(rhs),
    {
        Vec3(
            self.1 * rhs.2 - self.2 * rhs.1,
            self.2 * rhs.0 - self.0 * rhs.2,
            self.0 * rhs.1 - self.1 * rhs.0,
        )
    }

    pub fn length_squared(self) -> (r: Fixed)
        ensures
            r == self.length_squared_spec(),
    {
        self.dot(self)
    }

    pub fn length(self) -> (r: Fixed)
        ensures
            r == self.length_spec(),
    {
        Fixed::hypot(self.0, self.1, self.2)
    }

    pub fn unit(self) -> (r: Vec3<Fixed>)
        ensures
            r == self.unit_spec(),
    {
        self / self.length()
    }

    /// Carries a sample of the unit cube over to the cube over `range`.
    pub fn spread(u: Vec3<Fixed>, range: Range<Fixed>) -> (r: Vec3<Fixed>)
        ensures
            r == Vec3::spread_spec(u, range),
    {
        u * (range.end - range.start) + Vec3(Fixed::one(), Fixed::one(), Fixed::one()) * range.start
    }

    /// A random point of the cube over `range`.
    pub fn random(range: Range<Fixed>) -> (r: Vec3<Fixed>)
        ensures
            exists|u: Vec3<Fixed>| u.is_unit_sample() && r == #[trigger] Vec3::spread_spec(u, range),
    {
        let u = Vec3(Fixed::random(), Fixed::random(), Fixed::random());
        Vec3::spread(u, range)
    }

    /// The first of `candidates` that lies inside the unit ball, or the
    /// origin if none does.
    pub fn first_in_ball(candidates: &[Vec3<Fixed>]) -> (r: Vec3<Fixed>)
        ensures
            r == Vec3::first_in_ball_spec(candidates@),
    {
        let mut i: usize = 0;
        assert(candidates@.skip(0) == candidates@);
        while i < candidates.len()
            invariant
                i <= candidates@.len(),
                Vec3::first_in_ball_spec(candidates@) == Vec3::first_in_ball_spec(
                    candidates@.skip(i as int),
                ),
            decreases candidates@.len() - i,
        {
            assert(candidates@.skip(i as int)[0] == candidates@[i as int]);
            assert(candidates@.skip(i as int).skip(1) == candidates@.skip(i + 1));
            if candidates[i].length_squared() < Fixed::one() {
                return candidates[i];
            }
            i = i + 1;
        }
        Vec3(Fixed::zero(), Fixed::zero(), Fixed::zero())
    }

    /// A random point inside the unit ball, by rejection: candidates are
    /// drawn from the cube `[-1, 1)^3` until one lies inside the ball. After
    /// `SAMPLE_TRIES` rejected candidates the origin is returned. The result
    /// is the first in the ball of the candidates drawn.
    pub fn random_in_unit_sphere() -> (r: Vec3<Fixed>)
        ensures
            r.in_unit_ball(),
            exists|candidates: Seq<Vec3<Fixed>>|
                {
                    &&& candidates.len() <= SAMPLE_TRIES
                    &&& forall|k: int|
                        0 <= k < candidates.len() ==> (#[trigger] candidates[k]).is_cube_candidate()
                    &&& r == #[trigger] Vec3::first_in_ball_spec(candidates)
                },
    {
        let mut tries: u32 = 0;
        let ghost mut drawn: Seq<Vec3<Fixed>> = Seq::empty();
        while tries < SAMPLE_TRIES
            invariant
                tries <= SAMPLE_TRIES,
                drawn.len() == tries,
                forall|k: int| 0 <= k < drawn.len() ==> (#[trigger] drawn[k]).is_cube_candidate(),
                forall|k: int| 0 <= k < drawn.len() ==> !(#[trigger] drawn[k]).in_unit_ball(),
            decreases SAMPLE_TRIES - tries,
        {
            let cube = Range { start: Fixed::one().neg(), end: Fixed::one() };
            assert(cube == Vec3::cube_spec());
            let vec = Vec3::random(cube);
            proof {
                lemma_first_in_ball(drawn, vec);
                drawn = drawn.push(vec);
            }
            if vec.length_squared() < Fixed::one() {
                return vec;
            }
            tries = tries + 1;
        }
        let origin = Vec3(Fixed::zero(), Fixed::zero(), Fixed::zero());
        proof {
            lemma_none_in_ball(drawn);
            assert(origin.in_unit_ball());
        }
        origin
    }

    /// A random direction: a random point inside the unit ball, divided by
    /// its length.
    pub fn random_unit_vector() -> (r: Vec3<Fixed>)
        ensures
            exists|v: Vec3<Fixed>| v.in_unit_ball() && r == #[trigger] v.unit_spec(),
    {
        Vec3::random_in_unit_sphere().unit()
    }

    /// A random point inside the unit disk of the plane `z = 0`, by
    /// rejection, with the same bound on the candidates drawn. The result is
    /// the first in the ball of the candidates drawn.
    pub fn random_unit_disk() -> (r: Vec3<Fixed>)
        ensures
            r.in_unit_ball(),
            r.2 == Fixed::zero_spec(),
            exists|candidates: Seq<Vec3<Fixed>>|
                {
                    &&& candidates.len() <= SAMPLE_TRIES
                    &&& forall|k: int|
                        0 <= k < candidates.len() ==> (#[trigger] candidates[k]).is_disk_candidate()
                    &&& r == #[trigger] Vec3::first_in_ball_spec(candidates)
                },
    {
        let mut tries: u32 = 0;
        let ghost mut drawn: Seq<Vec3<Fixed>> = Seq::empty();
        while tries < SAMPLE_TRIES
            invariant
                tries <= SAMPLE_TRIES,
                drawn.len() == tries,
                forall|k: int| 0 <= k < drawn.len() ==> (#[trigger] drawn[k]).is_disk_candidate(),
                forall|k: int| 0 <= k < drawn.len() ==> !(#[trigger] drawn[k]).in_unit_ball(),
            decreases SAMPLE_TRIES - tries,
        {
            let vec = Vec3::disk_candidate(Fixed::random(), Fixed::random());
            proof {
                lemma_first_in_ball(drawn, vec);
                drawn = drawn.push(vec);
            }
            if vec.length_squared() < Fixed::one() {
                return vec;
            }
            tries = tries + 1;
        }
        let origin = Vec3(Fixed::zero(), Fixed::zero(), Fixed::zero());
        proof {
            lemma_none_in_ball(drawn);
            assert(origin.in_unit_ball());
        }
        origin
    }

    /// The candidate that two samples of the unit interval give the disk
    /// sampler.
    pub fn disk_candidate(a: Fixed, b: Fixed) -> (r: Vec3<Fixed>)
        ensures
            r == Vec3::disk_candidate_spec(a, b),
            r.2 == Fixed::zero_spec(),
    {
        Vec3(a, b, Fixed::zero()) * Fixed::from_int(2) - Vec3(Fixed::one(), Fixed::one(), Fixed::zero())
    }

    /// The byte that stands for a color channel of intensity `c`.
    pub fn channel(c: Fixed) -> (r: u8)
        ensures
            r == Vec3::channel_spec(c),
    {
        let scaled = Fixed::ratio(255999, 1000) * c.sqrt();
        if scaled < Fixed::zero() {
            0
        } else if scaled > Fixed::from_int(255) {
            255
        } else {
            (scaled.raw / ONE_RAW) as u8
        }
    }

    /// The color as red, green and blue bytes.
    pub fn to_rgb(self) -> (r: (u8, u8, u8))
        ensures
            r.0 == Vec3::channel_spec(self.0),
            r.1 == Vec3::channel_spec(self.1),
            r.2 == Vec3::channel_spec(self.2),
    {
        (Vec3::channel(self.0), Vec3::channel(self.1), Vec3::channel(self.2))
    }

    pub fn near_zero(self) -> (r: bool)
        ensures
            r == self.near_zero_spec(),
    {
        let threshold = Fixed { raw: NEAR_ZERO_RAW };
        self.0.abs() < threshold && self.1.abs() < threshold && self.2.abs() < threshold
    }

    pub fn reflect(self, normal: Vec3<Fixed>) -> (r: Vec3<Fixed>)
        ensures
            r == self.reflect_spec(normal),
    {
        self - normal * Fixed::from_int(2) * self.dot(normal)
    }

    pub fn refract(self, normal: Vec3<Fixed>, etai_over_etat: Fixed) -> (r: Vec3<Fixed>)
        ensures
            r == self.refract_spec(normal, etai_over_etat),
    {
        let cos_theta = self.dot(normal).neg().min(Fixed::one());
        let r_out_perp = (self + normal * cos_theta) * etai_over_etat;
        let r_out_parallel = normal * (Fixed::one() - r_out_perp.length_squared()).abs().sqrt().neg();
        r_out_perp + r_out_parallel
    }
}

/// Where no candidate lies inside the unit ball, the first in the ball is
/// the origin.
pub proof fn lemma_none_in_ball(candidates: Seq<Vec3<Fixed>>)
    requires
        forall|k: int| 0 <= k < candidates.len() ==> !(#[trigger] candidates[k]).in_unit_ball(),
    ensures
        Vec3::first_in_ball_spec(candidates) == Vec3::origin_spec(),
    decreases candidates.len(),
{
    if candidates.len() > 0 {
        assert forall|k: int| 0 <= k < candidates.skip(1).len() implies !(
        #[trigger] candidates.skip(1)[k]).in_unit_ball() by {
            assert(candidates.skip(1)[k] == candidates[k + 1]);
        }
        lemma_none_in_ball(candidates.skip(1));
    }
}

/// After candidates that all lie outside the unit ball, one more candidate
/// is the first in the ball if it lies inside, and else the origin is.
pub proof fn lemma_first_in_ball(rejected: Seq<Vec3<Fixed>>, next: Vec3<Fixed>)
    requires
        forall|k: int| 0 <= k < rejected.len() ==> !(#[trigger] rejected[k]).in_unit_ball(),
    ensures
        Vec3::first_in_ball_spec(rejected.push(next)) == if next.in_unit_ball() {
            next
        } else {
            Vec3::origin_spec()
        },
    decreases rejected.len(),
{
    let all = rejected.push(next);
    if rejected.len() == 0 {
        assert(all[0] == next);
        assert(all.skip(1).len() == 0);
        assert(Vec3::first_in_ball_spec(all.skip(1)) == Vec3::origin_spec());
    } else {
        assert(all[0] == rejected[0]);
        assert(all.skip(1) == rejected.skip(1).push(next));
        assert(Vec3::first_in_ball_spec(all) == Vec3::first_in_ball_spec(all.skip(1)));
        assert forall|k: int| 0 <= k < rejected.skip(1).len() implies !(
        #[trigger] rejected.skip(1)[k]).in_unit_ball() by {
            assert(rejected.skip(1)[k] == rejected[k + 1]);
        }
        lemma_first_in_ball(rejected.skip(1), next);
    }
}

/// The exact dot product does not depend on the order of the vectors, and
/// reversing a vector whose raw counts lie in the symmetric range negates
/// it.
pub proof fn lemma_dot_exact(a: Vec3<Fixed>, b: Vec3<Fixed>)
    ensures
        a.dot_exact(b) == b.dot_exact(a),
        b.wf() ==> a.dot_exact(b.negate()) == -a.dot_exact(b),
{
    assert(a.dot_exact(b) == b.dot_exact(a)) by (nonlinear_arith)
        requires
            a.dot_exact(b) == a.0.raw * b.0.raw + a.1.raw * b.1.raw + a.2.raw * b.2.raw,
            b.dot_exact(a) == b.0.raw * a.0.raw + b.1.raw * a.1.raw + b.2.raw * a.2.raw,
    ;
    if b.wf() {
        let n = b.negate();
        assert(n.0.raw == -b.0.raw && n.1.raw == -b.1.raw && n.2.raw == -b.2.raw);
        assert(a.dot_exact(n) == -a.dot_exact(b)) by (nonlinear_arith)
            requires
                a.dot_exact(b) == a.0.raw * b.0.raw + a.1.raw * b.1.raw + a.2.raw * b.2.raw,
                a.dot_exact(n) == a.0.raw * n.0.raw + a.1.raw * n.1.raw + a.2.raw * n.2.raw,
                n.0.raw == -b.0.raw,
                n.1.raw == -b.1.raw,
                n.2.raw == -b.2.raw,
        ;
    }
}

/// The dot product does not depend on the order of the vectors.
pub proof fn lemma_dot_commutes(a: Vec3<Fixed>, b: Vec3<Fixed>)
    ensures
        a.dot_spec(b) == b.dot_spec(a),
{
    lemma_times_commutes(a.0, b.0);
    lemma_times_commutes(a.1, b.1);
    lemma_times_commutes(a.2, b.2);
}

/// Every coordinate of a vector divided by its length lies between minus
/// one and one, whatever the vector.
pub proof fn lemma_unit_bounded(v: Vec3<Fixed>)
    ensures
        -ONE_RAW <= v.unit_spec().0.raw <= ONE_RAW,
        -ONE_RAW <= v.unit_spec().1.raw <= ONE_RAW,
        -ONE_RAW <= v.unit_spec().2.raw <= ONE_RAW,
{
    lemma_over_hypot(v.0, v.0, v.1, v.2);
    lemma_over_hypot(v.1, v.0, v.1, v.2);
    lemma_over_hypot(v.2, v.0, v.1, v.2);
}

/// A squared length is not negative.
pub proof fn lemma_length_squared_nonneg(v: Vec3<Fixed>)
    ensures
        v.length_squared_spec().raw >= 0,
{
    lemma_times_self_nonneg(v.0);
    lemma_times_self_nonneg(v.1);
    lemma_times_self_nonneg(v.2);
}

/// Reversing one vector negates the dot product, exactly.
pub proof fn lemma_dot_negate(d: Vec3<Fixed>, n: Vec3<Fixed>)
    requires
        n.wf(),
    ensures
        d.dot_spec(n.negate()) == d.dot_spec(n).negate(),
        d.dot_spec(n).wf(),
{
    lemma_times_negate(d.0, n.0);
    lemma_times_negate(d.1, n.1);
    lemma_times_negate(d.2, n.2);
    let t0 = d.0.times(n.0);
    let t1 = d.1.times(n.1);
    let t2 = d.2.times(n.2);
    lemma_plus_negate(t0, t1);
    lemma_plus_negate(t0.plus(t1), t2);
}

} // verus!
