//! The source of randomness.

use vstd::prelude::*;
use crate::fixed::Fixed;
use crate::fixed::ONE_RAW;

verus! {

/// Calls `rand::random::<u32>()`, which draws 32 bits from the calling
/// thread's generator. Nothing is claimed of the bits that come back. The
/// generator is seeded from the operating system when a thread first uses
/// it and again after every 64 KiB drawn, and the call panics if the
/// system's random source fails at either time or if the handler that
/// reseeds after a fork cannot be registered.
#[verifier::external_body]
fn random_bits() -> (bits: u32) {
    rand::random::<u32>()
}

impl Fixed {
    /// A number is at least zero and below one.
    pub open spec fn is_unit_sample(self) -> bool {
        0 <= self.raw < ONE_RAW
    }

    /// The number below one whose 32 fractional bits are `bits`.
    pub fn from_fraction_bits(bits: u32) -> (r: Fixed)
        ensures
            r.raw == bits,
            r.is_unit_sample(),
    {
        Fixed { raw: bits as i64 }
    }

    /// A random number in `[0, 1)`, each multiple of 2^-32 as likely as any
    /// other.
    pub fn random() -> (r: Fixed)
        ensures
            r.is_unit_sample(),
    {
        Fixed::from_fraction_bits(random_bits())
    }
}

} // verus!
