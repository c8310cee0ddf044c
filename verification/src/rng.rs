//! Random numbers, from the `rand` crate.
use vstd::prelude::*;
use rand::rngs::ThreadRng;

verus! {

/// The thread-local generator of `rand`, carried through the library as an opaque value.
#[verifier::external_type_specification]
#[verifier::external_body]
pub struct ExThreadRng(ThreadRng);

/// Calls `rand::thread_rng`, which hands out a handle to the thread's
/// generator. Nothing is stated of the handle.
#[verifier::external_body]
pub(crate) fn new_rng() -> ThreadRng {
    rand::thread_rng()
}

/// Calls `rand::Rng::gen_range` on the range `0..n`. The crate panics on
/// an empty range, which `requires` excludes, and otherwise returns a value
/// of the range; which one depends on the generator's state, so only the
/// range is stated.
#[verifier::external_body]
pub(crate) fn gen_index(rng: &mut ThreadRng, n: usize) -> (r: usize)
    requires
        0 < n,
    ensures
        r < n,
{
    rand::Rng::gen_range(rng, 0..n)
}

/// A random number from `lo` up to, and not including, `hi`.
pub(crate) fn gen_range(rng: &mut ThreadRng, lo: i32, hi: i32) -> (r: i32)
    requires
        lo < hi,
    ensures
        lo <= r < hi,
{
    let span = (hi as i64 - lo as i64) as u64;
    proof {
        assert(span <= u32::MAX);
    }
    let k = gen_index(rng, span as usize);
    (lo as i64 + k as i64) as i32
}

/// Calls `rand::Rng::gen::<bool>`, a fair coin. Nothing is stated of the result.
#[verifier::external_body]
pub(crate) fn gen_bool(rng: &mut ThreadRng) -> bool {
    rand::Rng::gen::<bool>(rng)
}

} // verus!
