//! The random choices of map generation, made by `rand` with a seeded
//! `StdRng`.

use rand::rngs::StdRng;
use rand::seq::{IteratorRandom, SliceRandom};
use vstd::prelude::*;

use crate::hex::Hex;

verus! {

/// `rand`'s standard generator; seeded once, it fixes every choice a map
/// generation makes.
#[verifier::external_type_specification]
#[verifier::external_body]
pub struct ExStdRng(StdRng);

/// Calls `rand::seq::IteratorRandom::choose` on the candidates: `None`
/// exactly when there are none, else one of them. Which one depends on the
/// generator's state and is left unsaid. The candidates are handed over as
/// an iterator that gives no lower bound on its length (`map_while` keeps
/// every item), as a filtered iterator does: `choose` then draws one coin
/// per candidate in order, so a seed makes the same choices as when the
/// candidates are filtered out of the map while it is walked.
#[verifier::external_body]
pub(crate) fn choose_hex(rng: &mut StdRng, candidates: &Vec<Hex>) -> (r: Option<Hex>)
    ensures
        r is None <==> candidates.len() == 0,
        r matches Option::Some(h) ==> candidates@.contains(h),
{
    candidates.iter().map_while(Option::Some).choose(rng).copied()
}

/// Calls `rand::seq::SliceRandom::shuffle`: the vector afterwards holds the
/// same items, in an order that depends on the generator's state and is
/// left unsaid.
#[verifier::external_body]
pub(crate) fn shuffle<T>(v: &mut Vec<T>, rng: &mut StdRng)
    ensures
        final(v)@.to_multiset() == old(v)@.to_multiset(),
{
    v.shuffle(rng)
}

} // verus!
