//! Choosing what to watch next: one entry of the catalog, drawn at random
//! from those that are not among the watched ones.

use crate::entries::{difference, lemma_difference, EntrySet};
use rand::seq::SliceRandom;
use vstd::prelude::*;

verus! {

/// `SliceRandom::choose` of the `rand` crate, called on `items` with the
/// generator that `rand::thread_rng` hands out: it gives nothing for an empty
/// slice and otherwise a reference to one of the slice's elements, at a
/// position drawn uniformly. Which element it is cannot be known beforehand.
/// The generator is seeded by the system when a thread first asks for it,
/// and gives up where the system has no randomness to offer.
#[verifier::external_body]
fn draw(items: &Vec<String>) -> (picked: Option<&String>)
    ensures
        items@.len() == 0 ==> picked is None,
        items@.len() > 0 ==> picked is Some && items@.contains(*picked.unwrap()),
{
    items.choose(&mut rand::thread_rng())
}

/// Recommends an entry of `catalog` that is not in `watched`, drawn at
/// random from all such entries, each of which stands once in the draw.
/// Gives `None` where everything in the catalog has been watched.
pub fn recommend(catalog: &EntrySet, watched: &EntrySet) -> (pick: Option<String>)
    ensures
        pick is None <==> difference(catalog.order(), watched@).len() == 0,
        pick is Some ==> difference(catalog.order(), watched@).contains(pick.unwrap()@),
        pick is Some ==> catalog@.contains(pick.unwrap()@) && !watched@.contains(pick.unwrap()@),
{
    let pool = catalog.without(watched);
    proof {
        lemma_difference(catalog.order(), watched@);
    }
    match draw(&pool) {
        Some(entry) => {
            proof {
                let k = choose|k: int| 0 <= k < pool@.len() && pool@[k] == *entry;
                assert(pool.deep_view()[k] == entry@);
            }
            Some(entry.clone())
        },
        None => None,
    }
}

} // verus!
