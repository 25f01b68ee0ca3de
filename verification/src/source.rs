//! The source of chance: the thread-local generator of the `rand` crate.
//!
//! Nothing in this file is proved. Each item states what the rest of the
//! library takes for granted about `rand`.

use rand::rngs::ThreadRng;
use rand::Rng;
use vstd::prelude::*;

verus! {

/// `rand::rngs::ThreadRng`, a handle to the generator of the current thread.
/// Its state is hidden: no contract speaks of what it holds.
#[verifier::external_type_specification]
#[verifier::external_body]
pub struct ExThreadRng(ThreadRng);

/// `rand::thread_rng` hands out the generator of the calling thread, seeded by
/// the system on first use. Nothing is claimed of the handle.
pub assume_specification[ rand::thread_rng ]() -> (rng: ThreadRng);

/// `Rng::gen_range` over the closed range from 1 to `sides`. The face that
/// comes back lies within that range; which one it is depends on chance, so no
/// more is claimed. An empty range makes `gen_range` panic, hence `sides` is
/// at least 1.
#[verifier::external_body]
pub(crate) fn draw(rng: &mut ThreadRng, sides: u32) -> (face: u32)
    requires
        sides >= 1,
    ensures
        1 <= face <= sides,
{
    rng.gen_range(1..=sides)
}

} // verus!
