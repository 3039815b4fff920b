use vstd::prelude::*;
use rand::Rng;
use rltk::RandomNumberGenerator;

verus! {

/// The random number generator of `rltk`.
#[verifier::external_type_specification]
#[verifier::external_body]
pub struct ExRandomNumberGenerator(RandomNumberGenerator);

/// `RandomNumberGenerator::new`: a generator seeded from the operating system.
#[verifier::external_body]
pub(crate) fn rng_new() -> RandomNumberGenerator {
    RandomNumberGenerator::new()
}

/// `RandomNumberGenerator::range`: a number from `min` up to, not including,
/// `max`.  It calls `gen_range(min..max)` of `rand`, which panics on an empty
/// range, hence `min < max`.
#[verifier::external_body]
pub(crate) fn rng_range(rng: &mut RandomNumberGenerator, min: i32, max: i32) -> (r: i32)
    requires
        min < max,
    ensures
        min <= r < max,
{
    rng.range(min, max)
}

/// `RandomNumberGenerator::random_slice_entry`: one of the entries of `slice`,
/// or none when it is empty.  For two or more entries it rolls a die with
/// `slice.len() as i32` sides, hence the bound on the length.
#[verifier::external_body]
pub(crate) fn rng_random_slice_entry(rng: &mut RandomNumberGenerator, slice: &Vec<(i32, i32)>) -> (r: Option<(i32, i32)>)
    requires
        slice.len() < i32::MAX,
    ensures
        r is None <==> slice.len() == 0,
        r matches Some(p) ==> slice@.contains(p),
{
    match rng.random_slice_entry(slice.as_slice()) {
        None => None,
        Some(p) => Some(*p),
    }
}

/// `Rng::gen_range(0..n)` on the thread's generator of `rand`: a number below
/// `n`; the range must not be empty.
#[verifier::external_body]
pub(crate) fn thread_random_below(n: u64) -> (r: u64)
    requires
        n > 0,
    ensures
        r < n,
{
    rand::thread_rng().gen_range(0..n)
}

} // verus!
