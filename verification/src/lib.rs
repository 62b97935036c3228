//! Reservoir sampling: collect a random sample of a known maximum size from
//! an iterator of unknown length, with Jeffrey Vitter's Algorithm R.
//!
//! The items are visited once, in order, and only the sample is held in
//! memory. What the sample holds for given draws is defined in [`model`].
use rand::Rng;
use vstd::prelude::*;
use vstd::std_specs::iter::IteratorSpec;

pub mod model;
pub mod uniformity;
mod random;

use crate::model::{
    admissible_draws, held, lemma_reservoir_len, lemma_reservoir_origin, lemma_reservoir_step,
    reservoir,
};
use crate::random::draw_below;

verus! {

/// Applies one draw to a full reservoir that starts at `original_length` in
/// `samples`: an `index` below `sample_size` puts `element` at that place of
/// the reservoir, any other `index` discards `element`.
pub fn place<T>(
    samples: &mut Vec<T>,
    original_length: usize,
    sample_size: usize,
    index: usize,
    element: T,
)
    requires
        index < sample_size ==> original_length + index < old(samples).len(),
    ensures
        index < sample_size ==> final(samples)@ == old(samples)@.update(
            original_length + index,
            element,
        ),
        index >= sample_size ==> final(samples)@ == old(samples)@,
{
    if index < sample_size {
        samples[original_length + index] = element;
    }
}

/// Collects a random sample of at most `sample_size` items of `iter` into
/// `samples`, behind what `samples` already holds.
///
/// The source is consumed to its end. What was in `samples` before the call
/// stays where it was; behind it stands the reservoir of Algorithm R over the
/// items of the source, for some record of draws with one draw for each item
/// that arrived after the reservoir was full. `rng` is asked for exactly
/// those draws, the one for the item that arrived as number `count` from the
/// range `[0, count)`.
///
/// The source must be one that ends, and its length must fit the counter.
pub fn sample_into<I, RNG>(samples: &mut Vec<I::Item>, rng: &mut RNG, sample_size: usize, iter: I)
    where I: Iterator, RNG: Rng
    requires
        iter.obeys_prophetic_iter_laws(),
        iter.remaining().len() <= usize::MAX,
    ensures
        exists|draws: Seq<nat>|
            #[trigger] admissible_draws(sample_size as nat, iter.remaining().len(), draws)
                && final(samples)@ == old(samples)@ + reservoir(
                sample_size as nat,
                iter.remaining(),
                draws,
            ),
        final(samples)@.len() == old(samples)@.len() + held(
            sample_size as nat,
            iter.remaining().len(),
        ),
        final(samples)@.subrange(0, old(samples)@.len() as int) == old(samples)@,
        forall|i: int|
            old(samples)@.len() <= i < final(samples)@.len() ==> iter.remaining().contains(
                #[trigger] final(samples)@[i],
            ),
        iter.remaining().len() <= sample_size ==> final(samples)@ == old(samples)@
            + iter.remaining(),
{
    let original_length: usize = samples.len();
    let mut count: usize = 0;
    let mut source = iter;
    let ghost mut draws: Seq<nat> = Seq::empty();
    loop
        invariant
            source.obeys_prophetic_iter_laws(),
            iter.remaining().len() <= usize::MAX,
            count <= iter.remaining().len(),
            source.remaining() == iter.remaining().skip(count as int),
            original_length == old(samples)@.len(),
            admissible_draws(sample_size as nat, count as nat, draws),
            samples@ == old(samples)@ + reservoir(
                sample_size as nat,
                iter.remaining().take(count as int),
                draws,
            ),
        ensures
            count == iter.remaining().len(),
        decreases usize::MAX - count,
    {
        let ghost seen = iter.remaining().take(count as int);
        proof {
            lemma_reservoir_len(sample_size as nat, seen, draws);
        }
        match source.next() {
            None => {
                break ;
            },
            Some(element) => {
                assert(element == iter.remaining()[count as int]);
                assert(source.remaining() =~= iter.remaining().skip(count + 1));
                assert(iter.remaining().take(count + 1) =~= seen.push(element));
                count += 1;
                if count <= sample_size {
                    samples.push(element);
                    assert(samples@ =~= old(samples)@ + seen.push(element));
                } else {
                    let index: usize = draw_below(rng, count);
                    proof {
                        lemma_reservoir_step(
                            sample_size as nat,
                            seen,
                            draws,
                            element,
                            index as nat,
                        );
                        draws = draws.push(index as nat);
                    }
                    place(samples, original_length, sample_size, index, element);
                    assert(samples@ =~= old(samples)@ + reservoir(
                        sample_size as nat,
                        seen.push(element),
                        draws,
                    ));
                }
            },
        }
    }
    proof {
        let items = iter.remaining();
        assert(items.take(count as int) =~= items);
        lemma_reservoir_len(sample_size as nat, items, draws);
        lemma_reservoir_origin(sample_size as nat, items, draws);
        let kept = reservoir(sample_size as nat, items, draws);
        assert(samples@.subrange(0, original_length as int) =~= old(samples)@);
        assert forall|i: int| original_length <= i < samples@.len() implies items.contains(
            #[trigger] samples@[i],
        ) by {
            assert(samples@[i] == kept[i - original_length]);
        }
    }
}

/// Returns a random sample of at most `sample_size` items of `iter`, in a
/// vector of its own.
///
/// The result is the reservoir of Algorithm R over the items of the source,
/// for some record of draws with one draw for each item that arrived after
/// the reservoir was full. A source of no more than `sample_size` items
/// comes back whole and in its order.
pub fn sample<I, RNG>(rng: &mut RNG, sample_size: usize, iter: I) -> (samples: Vec<I::Item>)
    where I: Iterator, RNG: Rng
    requires
        iter.obeys_prophetic_iter_laws(),
        iter.remaining().len() <= usize::MAX,
    ensures
        exists|draws: Seq<nat>|
            #[trigger] admissible_draws(sample_size as nat, iter.remaining().len(), draws)
                && samples@ == reservoir(sample_size as nat, iter.remaining(), draws),
        samples@.len() == held(sample_size as nat, iter.remaining().len()),
        forall|i: int|
            0 <= i < samples@.len() ==> iter.remaining().contains(#[trigger] samples@[i]),
        iter.remaining().len() <= sample_size ==> samples@ == iter.remaining(),
{
    let mut samples = Vec::<I::Item>::new();
    sample_into(&mut samples, rng, sample_size, iter);
    assert forall|draws: Seq<nat>| #[trigger]
        admissible_draws(sample_size as nat, iter.remaining().len(), draws) && samples@
            == Seq::<I::Item>::empty() + reservoir(
            sample_size as nat,
            iter.remaining(),
            draws,
        ) implies samples@ == reservoir(sample_size as nat, iter.remaining(), draws) by {
        assert(samples@ =~= reservoir(sample_size as nat, iter.remaining(), draws));
    }
    assert(iter.remaining().len() <= sample_size ==> samples@ =~= iter.remaining());
    samples
}

} // verus!
