//! The random number generator of world generation: a seeded `fastrand`
//! generator, and what is taken on trust about it.

use vstd::prelude::*;
use fastrand::Rng;

verus! {

#[verifier::external_type_specification]
#[verifier::external_body]
pub struct ExRng(Rng);

/// `fastrand::Rng::with_seed`: a generator that starts from `seed`.
#[verifier::external_body]
pub(crate) fn rng_with_seed(seed: u64) -> (r: Rng) {
    Rng::with_seed(seed)
}

/// `fastrand::Rng::i32`: a number from `low` to `high`, both included. The
/// crate panics on an empty range, which `requires` rules out.
#[verifier::external_body]
pub(crate) fn rng_i32(rng: &mut Rng, low: i32, high: i32) -> (r: i32)
    requires
        low <= high,
    ensures
        low <= r <= high,
{
    rng.i32(low..=high)
}

/// `fastrand::Rng::u32`: a number from `low` to `high`, both included. The
/// crate panics on an empty range, which `requires` rules out.
#[verifier::external_body]
pub(crate) fn rng_u32(rng: &mut Rng, low: u32, high: u32) -> (r: u32)
    requires
        low <= high,
    ensures
        low <= r <= high,
{
    rng.u32(low..=high)
}

/// `fastrand::Rng::usize`: a number from `low` to `high`, both included. The
/// crate panics on an empty range, which `requires` rules out.
#[verifier::external_body]
pub(crate) fn rng_usize(rng: &mut Rng, low: usize, high: usize) -> (r: usize)
    requires
        low <= high,
    ensures
        low <= r <= high,
{
    rng.usize(low..=high)
}

/// `fastrand::usize`: a number from `low` to `high`, both included, from the
/// generator of the running thread. The crate panics on an empty range, which
/// `requires` rules out.
#[verifier::external_body]
pub(crate) fn thread_usize(low: usize, high: usize) -> (r: usize)
    requires
        low <= high,
    ensures
        low <= r <= high,
{
    fastrand::usize(low..=high)
}

/// The generator that every random choice of a generation run draws from.
pub struct WorldgenRng {
    pub rng: Rng,
}

impl WorldgenRng {
    /// A generator that starts from `seed`: the same seed gives the same run.
    pub fn new(seed: u64) -> (r: Self) {
        WorldgenRng { rng: rng_with_seed(seed) }
    }

    /// A number from `low` to `high`, both included.
    pub fn i32(&mut self, low: i32, high: i32) -> (r: i32)
        requires
            low <= high,
        ensures
            low <= r <= high,
    {
        rng_i32(&mut self.rng, low, high)
    }

    /// A number from `low` to `high`, both included.
    pub fn u32(&mut self, low: u32, high: u32) -> (r: u32)
        requires
            low <= high,
        ensures
            low <= r <= high,
    {
        rng_u32(&mut self.rng, low, high)
    }

    /// A number from `low` to `high`, both included.
    pub fn usize(&mut self, low: usize, high: usize) -> (r: usize)
        requires
            low <= high,
        ensures
            low <= r <= high,
    {
        rng_usize(&mut self.rng, low, high)
    }

    /// A number from 0 to 99: one draw of a chance given in per cent.
    pub fn percent(&mut self) -> (r: u32)
        ensures
            r < 100,
    {
        rng_u32(&mut self.rng, 0, 99)
    }
}

} // verus!
