//! The random source that ticket generation draws from.

use vstd::prelude::*;

verus! {

/// A source of integers drawn from a closed range.
///
/// Generation treats whatever comes back as untrusted: a value outside the
/// requested range is discarded like a repeated draw.
pub trait RandomNumberGenerator {
    /// Draws a value that should lie in `[low, high]`.
    fn gen_range_u8(&mut self, low: u8, high: u8) -> u8
        requires
            low <= high,
    ;
}

/// The per-thread generator of the `rand` crate, carried through opaquely.
#[verifier::external_type_specification]
#[verifier::external_body]
pub struct ExThreadRng(rand::rngs::ThreadRng);

/// Relies on `rand::Rng::random_range` for `ThreadRng`, which samples the
/// inclusive range and panics only when it is empty (excluded by `low <= high`).
#[verifier::external_body]
fn sample_inclusive(source: &mut rand::rngs::ThreadRng, low: u8, high: u8) -> u8
    requires
        low <= high,
{
    rand::Rng::random_range(source, low..=high)
}

/// The thread-local generator of the `rand` crate is a random source.
impl RandomNumberGenerator for rand::rngs::ThreadRng {
    fn gen_range_u8(&mut self, low: u8, high: u8) -> u8 {
        sample_inclusive(self, low, high)
    }
}

/// Relies on `rand::rng`, which hands out the calling thread's generator.
#[verifier::external_body]
pub(crate) fn thread_source() -> rand::rngs::ThreadRng {
    rand::rng()
}

/// Relies on `rand::Rng::random_range` over `0..len`, which returns a value
/// in that range and panics only when it is empty (excluded by `len > 0`).
#[verifier::external_body]
pub(crate) fn random_index(source: &mut rand::rngs::ThreadRng, len: usize) -> (r: usize)
    requires
        len > 0,
    ensures
        r < len,
{
    rand::Rng::random_range(source, 0..len)
}

} // verus!
