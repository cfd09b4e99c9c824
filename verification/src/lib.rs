//! Amortized random booleans drawn bit by bit from buffered 64-bit words,
//! and letter-case randomization of text built on that boolean stream.

mod casing;
mod randomizer;
mod source;

pub use casing::case_of;
pub use casing::cased;
pub use casing::lemma_cased_push;
pub use casing::lower_of;
pub use casing::upper_of;
pub use randomizer::bit_to_bool;
pub use randomizer::draw_step;
pub use randomizer::draws;
pub use randomizer::lemma_bit_exhaustion;
pub use randomizer::lemma_draws_deterministic;
pub use randomizer::lemma_first_draw_refills;
pub use randomizer::refill_draw;
pub use randomizer::BufRand;
pub use source::RandomSource;
pub use source::ThreadSource;
