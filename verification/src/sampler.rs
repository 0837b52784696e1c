//! Weighted random choice among the successors of an atom.

use crate::atom::{values_of, SentAtom};
use crate::tally::{count_in, lemma_repeated_counted, repeated, WordTally};
use rand::{Rng, SeedableRng, StdRng};
use vstd::prelude::*;

verus! {

/// The standard generator of `rand`. The proofs see nothing of its state.
#[verifier::external_type_specification]
#[verifier::external_body]
pub struct ExStdRng(StdRng);

/// `rand::Rng::choose` on the standard generator: no element of an empty slice,
/// otherwise a reference to one of the elements of `values`. Which one depends on
/// the state of the generator, and nothing is claimed of it.
#[verifier::external_body]
pub(crate) fn choose_from<'a, T>(rng: &mut StdRng, values: &'a [T]) -> (picked: Option<&'a T>)
    ensures
        values@.len() == 0 ==> picked is None,
        values@.len() > 0 ==> picked is Some,
        picked matches Some(value) ==> exists|i: int|
            0 <= i < values@.len() && #[trigger] values@[i] == *value,
{
    rng.choose(values)
}

/// `rand::SeedableRng::from_seed` for the standard generator: a generator whose
/// draws are fixed by `seed`, a seed of any length. Nothing is claimed of its state.
#[verifier::external_body]
pub(crate) fn seeded(seed: &[usize]) -> (rng: StdRng) {
    StdRng::from_seed(seed)
}

/// Draws one successor from `counts`, each with a chance proportional to its count.
///
/// The draw is uniform among the atoms of the table when each is repeated as often
/// as it was counted; so whatever is drawn was counted at least once.
pub fn weighted_choice<'a>(rnd: &mut StdRng, counts: &'a WordTally) -> (atom: &'a SentAtom)
    requires
        counts.wf(),
        counts@.len() > 0,
    ensures
        repeated(counts.order(), counts@).contains(atom@),
        counts@.contains_key(atom@),
        counts@[atom@] >= 1,
{
    let all = counts.expand();
    proof {
        let order = counts.order();
        assert(counts@.contains_key(order.last())) by {
            assert(order.contains(order[order.len() - 1]));
        }
        assert(repeated(order, counts@).len() >= count_in(counts@, order.last()));
    }
    let picked = choose_from(rnd, all.as_slice());
    let atom = *picked.unwrap();
    proof {
        let i = choose|i: int| 0 <= i < all@.len() && all@[i] == atom;
        lemma_repeated_counted(counts.order(), counts@, i);
    }
    atom
}

} // verus!
