//! The mathematical model of Algorithm R: what the reservoir holds after a
//! run, as a function of the items offered and of the indices drawn, and the
//! laws that hold of it whatever was drawn.
use vstd::prelude::*;

verus! {

/// The number of items that a reservoir of `sample_size` places holds once
/// `offered` items have been offered to it.
pub open spec fn held(sample_size: nat, offered: nat) -> nat {
    if offered <= sample_size {
        offered
    } else {
        sample_size
    }
}

/// The number of draws that a run over `offered` items makes: one for each
/// item that arrives when the reservoir is already full.
pub open spec fn draws_needed(sample_size: nat, offered: nat) -> nat {
    if offered <= sample_size {
        0
    } else {
        (offered - sample_size) as nat
    }
}

/// `draws` is a possible record of the draws of one run over `offered` items:
/// it has one entry for each item that arrived after the reservoir was full,
/// and the entry for the item that arrived as number `count` (counting from
/// one) lies in `[0, count)`.
pub open spec fn admissible_draws(sample_size: nat, offered: nat, draws: Seq<nat>) -> bool {
    &&& draws.len() == draws_needed(sample_size, offered)
    &&& forall|j: int| 0 <= j < draws.len() ==> #[trigger] draws[j] <= sample_size + j
}

/// The reservoir after a run over `items` in which the draws came out as
/// `draws`.
///
/// While no more than `sample_size` items have arrived, the reservoir is the
/// items themselves, in the order of arrival. Each later item comes with one
/// draw, the last entry of `draws` belonging to the last item: a draw below
/// `sample_size` puts the item at that position, any other draw discards it.
pub open spec fn reservoir<T>(sample_size: nat, items: Seq<T>, draws: Seq<nat>) -> Seq<T>
    decreases items.len(),
{
    if items.len() <= sample_size {
        items
    } else {
        let earlier = reservoir(sample_size, items.drop_last(), draws.drop_last());
        if draws.last() < sample_size {
            earlier.update(draws.last() as int, items.last())
        } else {
            earlier
        }
    }
}

/// Size law: whatever was drawn, the reservoir holds the smaller of
/// `sample_size` and the number of items offered.
pub proof fn lemma_reservoir_len<T>(sample_size: nat, items: Seq<T>, draws: Seq<nat>)
    ensures
        reservoir(sample_size, items, draws).len() == held(sample_size, items.len()),
    decreases items.len(),
{
    if items.len() > sample_size {
        lemma_reservoir_len(sample_size, items.drop_last(), draws.drop_last());
    }
}

/// Origin law: whatever was drawn, each place of the reservoir holds one of
/// the items that were offered; nothing is made up.
pub proof fn lemma_reservoir_origin<T>(sample_size: nat, items: Seq<T>, draws: Seq<nat>)
    ensures
        forall|i: int|
            0 <= i < reservoir(sample_size, items, draws).len() ==> items.contains(
                #[trigger] reservoir(sample_size, items, draws)[i],
            ),
    decreases items.len(),
{
    let now = reservoir(sample_size, items, draws);
    if items.len() > sample_size {
        let fewer = items.drop_last();
        let earlier = reservoir(sample_size, fewer, draws.drop_last());
        lemma_reservoir_origin(sample_size, fewer, draws.drop_last());
        lemma_reservoir_len(sample_size, fewer, draws.drop_last());
        assert forall|i: int| 0 <= i < now.len() implies items.contains(#[trigger] now[i]) by {
            if draws.last() < sample_size && i == draws.last() {
                assert(items[items.len() - 1] == now[i]);
            } else {
                assert(now[i] == earlier[i]);
                let j = choose|j: int| 0 <= j < fewer.len() && fewer[j] == earlier[i];
                assert(items[j] == now[i]);
            }
        }
    } else {
        assert forall|i: int| 0 <= i < now.len() implies items.contains(#[trigger] now[i]) by {
            assert(items[i] == now[i]);
        }
    }
}

/// Short-source law: a source of no more than `sample_size` items is kept
/// whole and in its order, and no draw is made for it.
pub proof fn lemma_short_source_kept<T>(sample_size: nat, items: Seq<T>, draws: Seq<nat>)
    requires
        items.len() <= sample_size,
    ensures
        reservoir(sample_size, items, draws) == items,
        draws_needed(sample_size, items.len()) == 0,
{
}

/// Empty-sample law: with a sample size of zero nothing is kept, whatever
/// the source holds and whatever was drawn.
pub proof fn lemma_zero_size_keeps_nothing<T>(items: Seq<T>, draws: Seq<nat>)
    ensures
        reservoir(0, items, draws) == Seq::<T>::empty(),
{
    lemma_reservoir_len(0, items, draws);
    assert(reservoir(0, items, draws) =~= Seq::<T>::empty());
}

/// Draw-count law: a record of the draws of a run over `offered` items has
/// `offered - sample_size` entries where that is positive, and none
/// otherwise.
pub proof fn lemma_draw_count(sample_size: nat, offered: nat, draws: Seq<nat>)
    requires
        admissible_draws(sample_size, offered, draws),
    ensures
        offered <= sample_size ==> draws.len() == 0,
        offered > sample_size ==> draws.len() == offered - sample_size,
{
}

/// Step law: offering one more item `item` with the draw `index` to a full
/// reservoir changes at most the place `index`.
pub proof fn lemma_reservoir_step<T>(
    sample_size: nat,
    items: Seq<T>,
    draws: Seq<nat>,
    item: T,
    index: nat,
)
    requires
        items.len() >= sample_size,
    ensures
        reservoir(sample_size, items.push(item), draws.push(index)) == if index < sample_size {
            reservoir(sample_size, items, draws).update(index as int, item)
        } else {
            reservoir(sample_size, items, draws)
        },
{
    assert(items.push(item).drop_last() =~= items);
    assert(draws.push(index).drop_last() =~= draws);
}

} // verus!
