//! Choices made by chance.

use rand::seq::SliceRandom;
use vstd::prelude::*;

verus! {

/// The smaller of two numbers.
pub open spec fn lesser(a: nat, b: nat) -> nat {
    if a < b {
        a
    } else {
        b
    }
}

/// `SliceRandom::choose_multiple` of the crate `rand`, with the thread's random
/// number generator, chooses up to `amount` elements of a slice without
/// repetition: each place of the slice is chosen at most once, and as many are
/// chosen as are asked for or there are. Which ones, and in which order, is
/// left to chance. Where the system gives no seed, the generator panics.
#[verifier::external_body]
pub(crate) fn choose_multiple(all: &Vec<usize>, amount: usize) -> (chosen: Vec<usize>)
    ensures
        chosen@.len() == lesser(amount as nat, all@.len()),
        chosen@.to_multiset().subset_of(all@.to_multiset()),
{
    all.choose_multiple(&mut rand::thread_rng(), amount).cloned().collect()
}

/// Whether `picks` are `amount` different places of a list of `n` elements.
pub open spec fn valid_picks(picks: Seq<usize>, n: nat, amount: nat) -> bool {
    &&& picks.len() == amount
    &&& picks.no_duplicates()
    &&& forall|i: int| 0 <= i < picks.len() ==> (#[trigger] picks[i]) < n
}

/// Picks up to `amount` different places of a list of `n` elements by chance.
pub fn pick(n: usize, amount: usize) -> (picks: Vec<usize>)
    ensures
        valid_picks(picks@, n as nat, lesser(amount as nat, n as nat)),
{
    broadcast use vstd::seq_lib::group_to_multiset_ensures;
    broadcast use vstd::multiset::group_multiset_axioms;

    let mut all: Vec<usize> = Vec::new();
    let mut i: usize = 0;
    while i < n
        invariant
            i <= n,
            all@.len() == i,
            forall|j: int| 0 <= j < i ==> all@[j] == j,
        decreases n - i,
    {
        all.push(i);
        i = i + 1;
    }
    let picks = choose_multiple(&all, amount);
    proof {
        assert(all@.no_duplicates());
        all@.lemma_multiset_has_no_duplicates();
        assert forall|x: usize| picks@.to_multiset().contains(x) implies picks@.to_multiset().count(
            x,
        ) == 1 by {
            assert(picks@.to_multiset().count(x) <= all@.to_multiset().count(x));
            assert(all@.to_multiset().contains(x));
        }
        picks@.lemma_multiset_has_no_duplicates_conv();
        assert forall|i: int| 0 <= i < picks@.len() implies (#[trigger] picks@[i]) < n by {
            let x = picks@[i];
            assert(picks@.contains(x));
            assert(picks@.to_multiset().count(x) > 0);
            assert(picks@.to_multiset().count(x) <= all@.to_multiset().count(x));
            assert(all@.contains(x));
        }
    }
    picks
}

} // verus!
