//! The randomness that a forest draws its splits from.

use vstd::prelude::*;
use rand::distributions::{Distribution, Uniform};
use rand::rngs::{StdRng, ThreadRng};
use rand::SeedableRng;

verus! {

/// `rand::rngs::ThreadRng`, the handle on the generator that `rand` keeps for
/// each thread. Nothing is known of what is inside.
#[verifier::external_type_specification]
#[verifier::external_body]
pub struct ExThreadRng(rand::rngs::ThreadRng);

/// `rand::rngs::StdRng`, the standard generator of `rand`. Nothing is known
/// of what is inside.
#[verifier::external_type_specification]
#[verifier::external_body]
pub struct ExStdRng(rand::rngs::StdRng);

/// Where a forest's draws come from.
pub enum Randomness {
    /// The thread's own generator, seeded by the system.
    Thread(ThreadRng),
    /// A generator that was started from a seed: the same seed gives the
    /// same draws again.
    Seeded(StdRng),
}

/// Calls `rand::thread_rng`, which panics where the system cannot seed the
/// thread's generator. Nothing is claimed of the handle it returns.
#[verifier::external_body]
fn thread_source() -> ThreadRng {
    rand::thread_rng()
}

/// Calls `StdRng::seed_from_u64`. Nothing is claimed of the generator it
/// returns.
#[verifier::external_body]
fn seeded_source(seed: u64) -> StdRng {
    StdRng::seed_from_u64(seed)
}

/// Samples `Uniform::from(0..bound)` with the thread's generator. The range
/// must not be empty, or `Uniform::from` panics; the sample lies in the
/// range. Which number of the range comes is not claimed.
#[verifier::external_body]
fn draw_thread(rng: &mut ThreadRng, bound: usize) -> (drawn: usize)
    requires
        bound > 0,
    ensures
        drawn < bound,
{
    Uniform::from(0..bound).sample(rng)
}

/// Samples `Uniform::from(0..bound)` with a seeded generator. The range must
/// not be empty, or `Uniform::from` panics; the sample lies in the range.
/// Which number of the range comes is not claimed.
#[verifier::external_body]
fn draw_seeded(rng: &mut StdRng, bound: usize) -> (drawn: usize)
    requires
        bound > 0,
    ensures
        drawn < bound,
{
    Uniform::from(0..bound).sample(rng)
}

impl Randomness {
    /// The generator of the calling thread.
    pub fn thread() -> (source: Randomness)
        ensures
            source is Thread,
    {
        Randomness::Thread(thread_source())
    }

    /// A generator started from `seed`.
    pub fn seeded(seed: u64) -> (source: Randomness)
        ensures
            source is Seeded,
    {
        Randomness::Seeded(seeded_source(seed))
    }

    /// Draws a number below `bound`, each with the same chance. The source
    /// stays of its kind: the thread's generator, or a seeded one.
    pub fn below(&mut self, bound: usize) -> (drawn: usize)
        requires
            bound > 0,
        ensures
            drawn < bound,
            *final(self) is Thread <==> *old(self) is Thread,
            *final(self) is Seeded <==> *old(self) is Seeded,
    {
        match self {
            Randomness::Thread(rng) => draw_thread(rng, bound),
            Randomness::Seeded(rng) => draw_seeded(rng, bound),
        }
    }
}

} // verus!
