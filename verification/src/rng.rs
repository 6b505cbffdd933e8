//! The seeded random number generator the randomizer draws from, and the few
//! draws it makes. Which value comes out depends on the generator's hidden
//! state, so each draw promises only the range it lands in.
use vstd::prelude::*;
use rand::Rng;
use rand::seq::IndexedRandom;
use rand::seq::SliceRandom;


verus! {

#[verifier::external_type_specification]
#[verifier::external_body]
pub struct ExChaCha8Rng(rand_chacha::ChaCha8Rng);

/// `Rng::random_range(..len)` on `usize`: a value below `len` (the call
/// panics on an empty range, hence `len > 0`).
#[verifier::external_body]
pub(crate) fn random_below(rng: &mut rand_chacha::ChaCha8Rng, len: usize) -> (r: usize)
    requires
        len > 0,
    ensures
        r < len,
{
    rng.random_range(..len)
}

/// `Rng::random_range(lo..=hi)` on `u8`: a value in `lo..=hi` (the call
/// panics when `lo > hi`).
#[verifier::external_body]
pub(crate) fn random_u8_in(rng: &mut rand_chacha::ChaCha8Rng, lo: u8, hi: u8) -> (r: u8)
    requires
        lo <= hi,
    ensures
        lo <= r <= hi,
{
    rng.random_range(lo..=hi)
}

/// `Rng::random_range(lo..=hi)` on `i16`: a value in `lo..=hi` (the call
/// panics when `lo > hi`).
#[verifier::external_body]
pub(crate) fn random_i16_in(rng: &mut rand_chacha::ChaCha8Rng, lo: i16, hi: i16) -> (r: i16)
    requires
        lo <= hi,
    ensures
        lo <= r <= hi,
{
    rng.random_range(lo..=hi)
}

/// `IndexedRandom::choose`: `None` for an empty slice, else one of its
/// elements.
#[verifier::external_body]
pub(crate) fn choose_one<T: Copy>(items: &[T], rng: &mut rand_chacha::ChaCha8Rng) -> (r: Option<T>)
    ensures
        r is None <==> items@.len() == 0,
        r matches Some(x) ==> items@.contains(x),
{
    items.choose(rng).copied()
}

/// `SliceRandom::shuffle` on the vector's slice: the same elements in a
/// random order (the call only swaps elements).
#[verifier::external_body]
pub(crate) fn shuffle_in_place<T>(items: &mut Vec<T>, rng: &mut rand_chacha::ChaCha8Rng)
    ensures
        final(items)@.len() == old(items)@.len(),
        final(items)@.to_multiset() == old(items)@.to_multiset(),
{
    items.as_mut_slice().shuffle(rng);
}

} // verus!
