//! The per-contact transmission probability and the source of randomness.
//!
//! The probability is kept in an exact integer form, so that the two
//! endpoints of its range — where the outcome of a trial is certain — can be
//! reasoned about precisely.  Randomness comes from a seeded generator:
//! runs with the same seed draw the same sequence.

use vstd::prelude::*;

verus! {

/// The per-contact transmission probability `alpha`.
///
/// `Scaled(t)` stands for the probability `t / 2^64`: a per-contact trial
/// succeeds when a uniformly drawn 64-bit value falls below `t`.  The two
/// endpoints of the range have their own variants, for which the outcome of
/// every trial is certain.
#[derive(Clone, Copy, PartialEq, Eq, Structural, Debug)]
pub enum Alpha {
    /// `alpha = 0`: no contact ever transmits.
    Zero,
    /// `alpha = 1`: every contact transmits.
    One,
    /// `0 < alpha < 1`, as a numerator over `2^64`.
    Scaled(u64),
}

#[verifier::external_type_specification]
#[verifier::external_body]
pub struct ExStdRng(rand::rngs::StdRng);

/// Relies on `rand::SeedableRng::seed_from_u64` for `rand::rngs::StdRng`: it
/// builds a deterministic generator from the given seed.
#[verifier::external_body]
fn std_rng_from_seed(seed: u64) -> rand::rngs::StdRng {
    <rand::rngs::StdRng as rand::SeedableRng>::seed_from_u64(seed)
}

/// Relies on `rand::Rng::gen::<u64>`: it draws the generator's next 64-bit
/// value.  Nothing is promised of the value drawn.
#[verifier::external_body]
fn std_rng_next(rng: &mut rand::rngs::StdRng) -> u64 {
    rand::Rng::gen::<u64>(rng)
}

/// A seeded source of uniform 64-bit draws, passed explicitly into every
/// simulation run so that runs are reproducible.
pub struct SimRng {
    inner: rand::rngs::StdRng,
}

impl SimRng {
    /// A generator seeded with `seed`.
    pub fn new(seed: u64) -> SimRng {
        SimRng { inner: std_rng_from_seed(seed) }
    }

    /// The next uniform 64-bit draw.
    pub(crate) fn next_u64(&mut self) -> u64 {
        std_rng_next(&mut self.inner)
    }
}

} // verus!
