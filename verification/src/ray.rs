//! Rays: half-lines given by an origin and a direction.

use vstd::prelude::*;
use crate::fixed::Fixed;
use crate::vec::Vec3;

verus! {

/// A ray. The direction need not have unit length.
#[derive(Clone, Copy)]
pub struct Ray {
    pub origin: Vec3<Fixed>,
    pub direction: Vec3<Fixed>,
}

impl Ray {
    /// The point `origin + magnitude * direction`.
    pub open spec fn at_spec(self, magnitude: Fixed) -> Vec3<Fixed> {
        self.origin.plus(self.direction.scale(magnitude))
    }

    pub fn new(origin: Vec3<Fixed>, direction: Vec3<Fixed>) -> (r: Ray)
        ensures
            r == (Ray { origin, direction }),
    {
        Ray { origin, direction }
    }

    pub fn at(self, magnitude: Fixed) -> (r: Vec3<Fixed>)
        ensures
            r == self.at_spec(magnitude),
    {
        self.origin + self.direction * magnitude
    }
}

} // verus!
