//! The random generator that diversifies compiled code, from `rand`. Each
//! item here states what `rand` documents; none of it is proved.

use vstd::prelude::*;
use rand::distributions::{Distribution, Uniform};
use rand::rngs::{OsRng, SmallRng};
use rand::{Rng, SeedableRng};

verus! {

#[verifier::external_type_specification]
#[verifier::external_body]
pub struct ExSmallRng(SmallRng);

/// A uniform distribution over `0..=high` of `u32`: a `rand` `Uniform`,
/// whose generic declaration Verus refuses, so it is held here.
#[verifier::external_body]
pub struct NoopRange {
    inner: Uniform<u32>,
}

/// Upper bound of the range a `NoopRange` was made with.
pub uninterp spec fn noop_range_high(r: NoopRange) -> u32;

/// `SmallRng::from_rng(OsRng)`: a small generator seeded from the operating
/// system; `None` when the system cannot supply a seed, which `OsRng` reports
/// as an error rather than a panic. Whether it can is not known here.
#[verifier::external_body]
pub fn small_rng_from_os() -> Option<SmallRng> {
    SmallRng::from_rng(OsRng).ok()
}

/// `Rng::gen::<i32>`: any `i32`.
#[verifier::external_body]
pub fn gen_i32(rng: &mut SmallRng) -> i32 {
    rng.gen::<i32>()
}

/// `Uniform::new_inclusive(0, high)`.
#[verifier::external_body]
pub fn noop_range(high: u32) -> (r: NoopRange)
    ensures
        noop_range_high(r) == high,
{
    NoopRange { inner: Uniform::new_inclusive(0, high) }
}

/// `Distribution::sample` of a `Uniform`: some value of the closed range.
#[verifier::external_body]
pub fn sample(range: &NoopRange, rng: &mut SmallRng) -> (r: u32)
    ensures
        r <= noop_range_high(*range),
{
    range.inner.sample(rng)
}

} // verus!
