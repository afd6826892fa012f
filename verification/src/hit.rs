//! Intersections of rays with surfaces.

use vstd::prelude::*;
use std::ops::Range;
use std::ops::Neg;
use crate::fixed::Fixed;
use crate::material::Material;
use crate::ray::Ray;
use crate::vec::Vec3;
use crate::vec::lemma_dot_exact;

verus! {

/// Where and how a ray met a surface.
#[derive(Clone, Copy)]
pub struct HitRecord {
    pub point: Vec3<Fixed>,
    /// The surface normal, turned against the ray.
    pub normal: Vec3<Fixed>,
    pub mat: Material,
    /// The ray parameter of the point.
    pub dist: Fixed,
    /// The ray came from the side that the surface's own normal points to.
    pub front_face: bool,
}

/// `x` lies in the half-open interval `range`.
pub open spec fn range_contains(range: Range<Fixed>, x: Fixed) -> bool {
    range.start.raw <= x.raw < range.end.raw
}

impl HitRecord {
    /// The record of a hit at `point`, at ray parameter `dist`, where the
    /// surface's outward normal is `normal`. The ray meets the front face if
    /// its direction and the outward normal make a negative dot product,
    /// which is decided without rounding, and the stored normal is the
    /// outward normal or its opposite, whichever faces the ray.
    pub open spec fn new_spec(
        point: Vec3<Fixed>,
        normal: Vec3<Fixed>,
        mat: Material,
        dist: Fixed,
        ray: Ray,
    ) -> HitRecord {
        let front_face = ray.direction.dot_exact(normal) < 0;
        HitRecord {
            point,
            normal: if front_face {
                normal
            } else {
                normal.negate()
            },
            mat,
            dist,
            front_face,
        }
    }

    pub fn new(point: Vec3<Fixed>, normal: Vec3<Fixed>, mat: Material, dist: Fixed, ray: Ray) -> (r:
        Self)
        ensures
            r == HitRecord::new_spec(point, normal, mat, dist, ray),
            normal.wf() ==> ray.direction.dot_exact(r.normal) <= 0,
    {
        let front_face = ray.direction.opposes(normal);
        proof {
            lemma_dot_exact(ray.direction, normal);
        }
        HitRecord {
            point,
            normal: if front_face {
                normal
            } else {
                normal.neg()
            },
            dist,
            front_face,
            mat,
        }
    }
}

/// The stored normal of a hit record never points along the ray: their dot
/// product, taken without rounding and in either order, is not positive.
pub proof fn lemma_normal_opposes_ray(
    point: Vec3<Fixed>,
    normal: Vec3<Fixed>,
    mat: Material,
    dist: Fixed,
    ray: Ray,
)
    requires
        normal.wf(),
    ensures
        HitRecord::new_spec(point, normal, mat, dist, ray).normal.dot_exact(ray.direction) <= 0,
        ray.direction.dot_exact(HitRecord::new_spec(point, normal, mat, dist, ray).normal) <= 0,
{
    lemma_dot_exact(ray.direction, normal);
    lemma_dot_exact(ray.direction, HitRecord::new_spec(point, normal, mat, dist, ray).normal);
}

/// What can be hit by a ray.
pub trait Hittable: Sync {
    /// The hit, if any, of `ray` with this surface at a ray parameter in
    /// `range`.
    spec fn hit_spec(&self, ray: Ray, range: Range<Fixed>) -> Option<HitRecord>;

    fn hit(&self, ray: Ray, range: Range<Fixed>) -> (r: Option<HitRecord>)
        ensures
            r == self.hit_spec(ray, range),
    ;

    /// A hit lies in the interval that was searched.
    proof fn lemma_hit_in_range(&self, ray: Ray, range: Range<Fixed>)
        ensures
            self.hit_spec(ray, range) matches Some(h) ==> range_contains(range, h.dist),
    ;

    /// Lowering the end of the interval keeps the hit if it is still inside
    /// and finds no other.
    proof fn lemma_hit_narrowed(&self, ray: Ray, range: Range<Fixed>, end: Fixed)
        requires
            end.raw <= range.end.raw,
        ensures
            self.hit_spec(ray, Range { start: range.start, end }) == narrowed(
                self.hit_spec(ray, range),
                end,
            ),
    ;
}

/// The hit `h`, unless it lies at `end` or beyond.
pub open spec fn narrowed(h: Option<HitRecord>, end: Fixed) -> Option<HitRecord> {
    match h {
        Some(rec) => if rec.dist.raw < end.raw {
            Some(rec)
        } else {
            None
        },
        None => None,
    }
}

/// The hit that a scan of `items` in order ends with. Each member is
/// searched only up to the nearest hit found before it, so a hit replaces
/// the one before only if it is strictly nearer.
pub open spec fn nearest_hit<H: Hittable>(items: Seq<H>, ray: Ray, range: Range<Fixed>) -> Option<
    HitRecord,
>
    decreases items.len(),
{
    if items.len() == 0 {
        None
    } else {
        let before = nearest_hit(items.drop_last(), ray, range);
        match items.last().hit_spec(ray, Range { start: range.start, end: search_end(before, range) }) {
            Some(h) => Some(h),
            None => before,
        }
    }
}

/// Where the search ends once `best` has been found: at its distance, or at
/// the end of `range` if nothing has been found.
pub open spec fn search_end(best: Option<HitRecord>, range: Range<Fixed>) -> Fixed {
    match best {
        Some(h) => h.dist,
        None => range.end,
    }
}

impl<H: Hittable> Hittable for [H] {
    open spec fn hit_spec(&self, ray: Ray, range: Range<Fixed>) -> Option<HitRecord> {
        nearest_hit(self@, ray, range)
    }

    fn hit(&self, ray: Ray, range: Range<Fixed>) -> (r: Option<HitRecord>) {
        let mut best: Option<HitRecord> = None;
        let mut end = range.end;
        let mut i: usize = 0;
        while i < self.len()
            invariant
                i <= self@.len(),
                best == nearest_hit(self@.take(i as int), ray, range),
                end == search_end(best, range),
            decreases self@.len() - i,
        {
            assert(self@.take(i + 1).drop_last() == self@.take(i as int));
            if let Some(h) = self[i].hit(ray, Range { start: range.start, end }) {
                end = h.dist;
                best = Some(h);
            }
            i = i + 1;
        }
        assert(self@.take(i as int) == self@);
        best
    }

    proof fn lemma_hit_in_range(&self, ray: Ray, range: Range<Fixed>) {
        lemma_nearest_hit(self@, ray, range);
        if let Some(h) = nearest_hit(self@, ray, range) {
            let i = choose|i: int| 0 <= i < self@.len() && (#[trigger] self@[i]).hit_spec(ray, range) == Some(h);
            self@[i].lemma_hit_in_range(ray, range);
        }
    }

    proof fn lemma_hit_narrowed(&self, ray: Ray, range: Range<Fixed>, end: Fixed) {
        lemma_nearest_hit_narrowed(self@, ray, range, end);
    }
}

/// A scan returns the nearest of its members' hits: it finds nothing exactly
/// if no member is hit in `range`, and otherwise returns the hit of a member
/// that no other member's hit is nearer than.
pub proof fn lemma_nearest_hit<H: Hittable>(items: Seq<H>, ray: Ray, range: Range<Fixed>)
    ensures
        match nearest_hit(items, ray, range) {
            Some(h) => {
                &&& exists|i: int| 0 <= i < items.len() && (#[trigger] items[i]).hit_spec(ray, range) == Some(h)
                &&& forall|j: int| 0 <= j < items.len() ==> (
                    (#[trigger] items[j]).hit_spec(ray, range) matches Some(g) ==> h.dist.raw <= g.dist.raw)
            },
            None => forall|j: int| 0 <= j < items.len() ==> (#[trigger] items[j]).hit_spec(ray, range) is None,
        },
    decreases items.len(),
{
    if items.len() > 0 {
        let init = items.drop_last();
        let last = items.last();
        let before = nearest_hit(init, ray, range);
        let end = search_end(before, range);
        lemma_nearest_hit(init, ray, range);
        if let Some(p) = before {
            let i = choose|i: int| 0 <= i < init.len() && (#[trigger] init[i]).hit_spec(ray, range) == Some(p);
            init[i].lemma_hit_in_range(ray, range);
            assert(items[i] == init[i]);
        }
        last.lemma_hit_in_range(ray, range);
        last.lemma_hit_narrowed(ray, range, end);
        assert(items[items.len() - 1] == last);
        assert forall|j: int| 0 <= j < items.len() - 1 implies #[trigger] items[j] == init[j] by {}
    }
}

/// Lowering the end of the interval of a scan keeps its result if that is
/// still inside and finds no other.
pub proof fn lemma_nearest_hit_narrowed<H: Hittable>(
    items: Seq<H>,
    ray: Ray,
    range: Range<Fixed>,
    end: Fixed,
)
    requires
        end.raw <= range.end.raw,
    ensures
        nearest_hit(items, ray, Range { start: range.start, end }) == narrowed(
            nearest_hit(items, ray, range),
            end,
        ),
    decreases items.len(),
{
    if items.len() > 0 {
        let init = items.drop_last();
        let last = items.last();
        let low = Range { start: range.start, end };
        let before = nearest_hit(init, ray, range);
        let before_low = nearest_hit(init, ray, low);
        lemma_nearest_hit_narrowed(init, ray, range, end);
        lemma_nearest_hit(init, ray, range);
        if let Some(p) = before {
            let i = choose|i: int| 0 <= i < init.len() && (#[trigger] init[i]).hit_spec(ray, range) == Some(p);
            init[i].lemma_hit_in_range(ray, range);
        }
        last.lemma_hit_in_range(ray, range);
        last.lemma_hit_narrowed(ray, range, search_end(before, range));
        last.lemma_hit_narrowed(ray, range, search_end(before_low, low));
    }
}

} // verus!
