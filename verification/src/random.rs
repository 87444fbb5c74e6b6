use vstd::prelude::*;
use rand::Rng;
use rand::rngs::ThreadRng;

verus! {

/// `rand::rngs::ThreadRng`, the handle to a thread's generator. Its
/// contents are of no concern here.
#[verifier::external_type_specification]
#[verifier::external_body]
pub struct ExThreadRng(ThreadRng);

/// `rand::thread_rng`: a handle to the random number generator of the
/// current thread, which the system seeds. Nothing is claimed of the handle.
/// The generator panics where the system's source of entropy fails when it
/// is first used; no argument decides that.
pub assume_specification[ rand::thread_rng ]() -> (rng: ThreadRng)
;

/// `Rng::gen_range` on `low..high`: some number from `low` up to, but not
/// including, `high`. Which one is not said, and two calls may differ. The
/// range must not be empty. The generator reseeds itself from time to time
/// and panics where the system's source of entropy fails then; no argument
/// decides that.
#[verifier::external_body]
pub(crate) fn random_between(rng: &mut ThreadRng, low: i64, high: i64) -> (r: i64)
    requires
        low < high,
    ensures
        low <= r < high,
{
    rng.gen_range(low..high)
}

} // verus!
