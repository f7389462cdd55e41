use vstd::prelude::*;

verus! {

/// A random number below `n`.
/// Relies on `rand::Rng::gen_range` over `rand::rngs::OsRng`, which draws from
/// the half-open range `0..n` and panics only on an empty range.
#[verifier::external_body]
pub(crate) fn random_below(n: usize) -> (r: usize)
    requires
        n > 0,
    ensures
        r < n,
{
    rand::Rng::gen_range(&mut rand::rngs::OsRng, 0..n)
}

/// Puts the items of `v` in a random order.
/// Relies on `rand::seq::SliceRandom::shuffle` over `rand::rngs::OsRng`, which
/// swaps items in place (Fisher-Yates): the same items, in another order.
#[verifier::external_body]
pub(crate) fn shuffle<T>(v: &mut Vec<T>)
    ensures
        final(v)@.len() == old(v)@.len(),
        final(v)@.to_multiset() == old(v)@.to_multiset(),
{
    rand::seq::SliceRandom::shuffle(v.as_mut_slice(), &mut rand::rngs::OsRng)
}

/// `n` random bytes.
/// Relies on `rand::RngCore::fill_bytes` over `rand::rngs::OsRng`, which fills
/// the whole buffer.
#[verifier::external_body]
pub(crate) fn random_bytes(n: usize) -> (r: Vec<u8>)
    ensures
        r@.len() == n,
{
    let mut buf = vec![0u8; n];
    rand::RngCore::fill_bytes(&mut rand::rngs::OsRng, &mut buf);
    buf
}

} // verus!
