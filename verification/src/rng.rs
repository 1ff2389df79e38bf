use vstd::prelude::*;
use rand::seq::SliceRandom;
use rand::Rng;
use rand::SeedableRng;

verus! {

#[verifier::external_type_specification]
#[verifier::external_body]
pub struct ExSmallRng(rand::rngs::SmallRng);

/// Relies on rand's SmallRng::from_os_rng: a fresh generator seeded by the
/// operating system. Nothing is promised of the values it will produce.
#[verifier::external_body]
pub(crate) fn new_rng() -> rand::rngs::SmallRng {
    rand::rngs::SmallRng::from_os_rng()
}

/// Relies on rand's SliceRandom::shuffle: permutes the slice in place, so the
/// elements afterwards are exactly the elements before, in some order.
#[verifier::external_body]
pub(crate) fn shuffle_slice<T: DeepView>(rng: &mut rand::rngs::SmallRng, v: &mut Vec<T>)
    ensures
        final(v)@.len() == old(v)@.len(),
        final(v)@.to_multiset() == old(v)@.to_multiset(),
        final(v).deep_view().to_multiset() == old(v).deep_view().to_multiset(),
{
    v.shuffle(rng)
}

/// Relies on rand's Rng::random_range over `0..n`: a value below the bound.
#[verifier::external_body]
pub(crate) fn random_below(rng: &mut rand::rngs::SmallRng, n: usize) -> (r: usize)
    requires
        n > 0,
    ensures
        r < n,
{
    rng.random_range(0..n)
}

} // verus!
