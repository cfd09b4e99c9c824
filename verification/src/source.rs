//! The capability a randomizer draws from: anything that can produce raw
//! random 64-bit values, and a ready-made source backed by the `rand` crate.

use vstd::prelude::*;

verus! {

/// A source of raw random 64-bit values.
///
/// Each call may advance the source's own state; nothing is promised about
/// the values produced, and the source need not be random at all — a
/// deterministic replaying source is a valid implementation.
pub trait RandomSource {
    /// Produce the next raw 64-bit value.
    fn next_u64(&mut self) -> u64;
}

#[verifier::external_type_specification]
#[verifier::external_body]
pub struct ExThreadRng(rand::rngs::ThreadRng);

/// Relies on rand::thread_rng to hand out the thread-local generator; nothing
/// is promised of it.
pub assume_specification[ rand::thread_rng ]() -> rand::rngs::ThreadRng;

/// A [`RandomSource`] backed by the `rand` crate's thread-local generator.
pub struct ThreadSource {
    rng: rand::rngs::ThreadRng,
}

impl ThreadSource {
    /// A source drawing from this thread's lazily seeded generator.
    pub fn new() -> ThreadSource {
        ThreadSource { rng: rand::thread_rng() }
    }

    /// Relies on rand's RngCore::next_u64; nothing can be promised of a
    /// random value.
    #[verifier::external_body]
    fn draw(&mut self) -> u64 {
        rand::RngCore::next_u64(&mut self.rng)
    }
}

impl RandomSource for ThreadSource {
    fn next_u64(&mut self) -> u64 {
        self.draw()
    }
}

} // verus!
