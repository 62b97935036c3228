//! Uniformity of Algorithm R, stated by counting.
//!
//! A run over `n` items with a reservoir of `k` places makes one draw for
//! each item after the first `k`, the draw for the item that arrives as
//! number `count` from `[0, count)`. Where every draw is uniform over its
//! range and independent of the others, every record of draws is as likely
//! as any other. The chance that a given item is in the final reservoir is
//! then the share of the records that leave it there. This module counts
//! those records and proves that share to be `k / n` for every item.
use crate::model::{
    lemma_reservoir_len, lemma_reservoir_origin, lemma_reservoir_step, reservoir,
};
use vstd::prelude::*;

verus! {

/// The source whose items are their own positions: `0, 1, .., n - 1`.
pub open spec fn positions(n: nat) -> Seq<nat> {
    Seq::new(n, |i: int| i as nat)
}

/// The product `(from + 1) * (from + 2) * .. * n`: the number of records of
/// draws for the items that arrive after the first `from` of `n`.
pub open spec fn records(from: nat, n: nat) -> int
    decreases n - from,
{
    if from >= n {
        1
    } else {
        (from + 1) * records(from + 1, n)
    }
}

/// The number of ways to go on from the draws `made` to a full record for a
/// run over `n` items, counting only the records that leave the item
/// `wanted` in the reservoir; with no item wanted, every record counts.
pub open spec fn records_keeping(k: nat, n: nat, wanted: Option<nat>, made: Seq<nat>) -> int
    decreases n - k - made.len(), 1nat, 0nat,
{
    if k + made.len() >= n {
        if wanted matches Some(p) && !reservoir(k, positions(n), made).contains(p) {
            0
        } else {
            1
        }
    } else {
        records_keeping_below(k, n, wanted, made, k + made.len() + 1)
    }
}

/// The part of `records_keeping` in which the next draw comes out below
/// `bound`.
pub open spec fn records_keeping_below(
    k: nat,
    n: nat,
    wanted: Option<nat>,
    made: Seq<nat>,
    bound: nat,
) -> int
    decreases n - k - made.len(), 0nat, bound,
{
    if k + made.len() >= n || bound == 0 {
        0
    } else {
        records_keeping_below(k, n, wanted, made, (bound - 1) as nat) + records_keeping(
            k,
            n,
            wanted,
            made.push((bound - 1) as nat),
        )
    }
}

/// The draw `v` is one that is counted: it is below `limit` and is not
/// `skip`.
pub open spec fn is_counted(v: nat, limit: nat, skip: nat) -> bool {
    v < limit && v != skip
}

/// The number of draws below `bound` that are counted.
pub open spec fn draws_counted(bound: nat, limit: nat, skip: nat) -> int {
    let top: nat = if bound <= limit {
        bound
    } else {
        limit
    };
    if skip < top {
        top - 1
    } else {
        top as int
    }
}

/// There is at least one record of draws.
pub proof fn lemma_records_positive(from: nat, n: nat)
    ensures
        records(from, n) > 0,
    decreases n - from,
{
    if from < n {
        lemma_records_positive(from + 1, n);
        assert((from + 1) * records(from + 1, n) > 0) by (nonlinear_arith)
            requires
                records(from + 1, n) > 0,
        ;
    }
}

/// Whatever was drawn, the reservoir over the source of positions holds
/// positions of that source, and none of them twice.
pub proof fn lemma_positions_distinct(k: nat, n: nat, draws: Seq<nat>)
    ensures
        reservoir(k, positions(n), draws).no_duplicates(),
        forall|i: int|
            0 <= i < reservoir(k, positions(n), draws).len() ==> #[trigger] reservoir(
                k,
                positions(n),
                draws,
            )[i] < n,
    decreases n,
{
    let now = reservoir(k, positions(n), draws);
    lemma_reservoir_origin(k, positions(n), draws);
    assert forall|i: int| 0 <= i < now.len() implies #[trigger] now[i] < n by {
        let j = choose|j: int| 0 <= j < positions(n).len() && positions(n)[j] == now[i];
    }
    if n > k {
        let fewer = (n - 1) as nat;
        assert(positions(n).drop_last() =~= positions(fewer));
        lemma_positions_distinct(k, fewer, draws.drop_last());
        lemma_reservoir_len(k, positions(fewer), draws.drop_last());
    }
}

/// The choice is blind to the items: each place of the reservoir over
/// `items` holds the item whose position the reservoir over the source of
/// positions holds at that place, for the same draws.
pub proof fn lemma_reservoir_by_position<T>(k: nat, items: Seq<T>, draws: Seq<nat>)
    ensures
        reservoir(k, items, draws).len() == reservoir(k, positions(items.len()), draws).len(),
        forall|i: int|
            0 <= i < reservoir(k, items, draws).len() ==> {
                &&& reservoir(k, positions(items.len()), draws)[i] < items.len()
                &&& #[trigger] reservoir(k, items, draws)[i] == items[reservoir(
                    k,
                    positions(items.len()),
                    draws,
                )[i] as int]
            },
    decreases items.len(),
{
    let n = items.len();
    let now = reservoir(k, items, draws);
    let held_now = reservoir(k, positions(n), draws);
    lemma_reservoir_len(k, items, draws);
    lemma_reservoir_len(k, positions(n), draws);
    lemma_positions_distinct(k, n, draws);
    if n > k {
        let fewer = (n - 1) as nat;
        let earlier = reservoir(k, items.drop_last(), draws.drop_last());
        let held_earlier = reservoir(k, positions(fewer), draws.drop_last());
        assert(positions(n).drop_last() =~= positions(fewer));
        lemma_reservoir_by_position(k, items.drop_last(), draws.drop_last());
        lemma_reservoir_len(k, items.drop_last(), draws.drop_last());
        assert forall|i: int| 0 <= i < now.len() implies held_now[i] < n && #[trigger] now[i]
            == items[held_now[i] as int] by {
            if draws.last() < k && i == draws.last() {
                assert(held_now[i] == fewer);
            } else {
                assert(now[i] == earlier[i]);
                assert(held_now[i] == held_earlier[i]);
                assert(earlier[i] == items.drop_last()[held_earlier[i] as int]);
            }
        }
    } else {
        assert forall|i: int| 0 <= i < now.len() implies held_now[i] < n && #[trigger] now[i]
            == items[held_now[i] as int] by {
            assert(held_now[i] == i);
        }
    }
}

/// Adds up `records_keeping` over the next draw, where each draw that is
/// counted leads to `share / n` records and every other draw to none.
proof fn lemma_sum_over_next_draw(
    k: nat,
    n: nat,
    wanted: Option<nat>,
    made: Seq<nat>,
    bound: nat,
    limit: nat,
    skip: nat,
    share: int,
)
    requires
        k + made.len() < n,
        forall|v: nat|
            v < bound ==> #[trigger] records_keeping(k, n, wanted, made.push(v)) * n == if is_counted(v, limit, skip) {
                share
            } else {
                0
            },
    ensures
        records_keeping_below(k, n, wanted, made, bound) * n == draws_counted(bound, limit, skip)
            * share,
    decreases bound,
{
    if bound > 0 {
        let last = (bound - 1) as nat;
        lemma_sum_over_next_draw(k, n, wanted, made, last, limit, skip, share);
        let before = records_keeping_below(k, n, wanted, made, last);
        let added = records_keeping(k, n, wanted, made.push(last));
        let counted = draws_counted(last, limit, skip);
        assert(records_keeping_below(k, n, wanted, made, bound) == before + added);
        assert((before + added) * n == before * n + added * n) by (nonlinear_arith);
        assert((counted + 1) * share == counted * share + share) by (nonlinear_arith);
        assert(before * n == counted * share);
        if is_counted(last, limit, skip) {
            assert(added * n == share);
            assert(draws_counted(bound, limit, skip) == counted + 1);
        } else {
            assert(added * n == 0);
            assert(draws_counted(bound, limit, skip) == counted);
        }
    } else {
        assert(draws_counted(bound, limit, skip) == 0);
        assert(records_keeping_below(k, n, wanted, made, bound) == 0);
    }
}

/// What the draws `made` so far settle about the records that go on from
/// them: how many there are, and how many of them leave the item `p` in the
/// reservoir, by whether `p` is still to come, is held now, or was lost.
proof fn lemma_records_from(k: nat, n: nat, p: nat, made: Seq<nat>)
    requires
        k + made.len() <= n,
        p < n,
    ensures
        records_keeping(k, n, None, made) == records(k + made.len(), n),
        p >= k + made.len() ==> records_keeping(k, n, Some(p), made) * n == k * records(
            k + made.len(),
            n,
        ),
        p < k + made.len() && reservoir(k, positions(k + made.len()), made).contains(p)
            ==> records_keeping(k, n, Some(p), made) * n == (k + made.len()) * records(
            k + made.len(),
            n,
        ),
        p < k + made.len() && !reservoir(k, positions(k + made.len()), made).contains(p)
            ==> records_keeping(k, n, Some(p), made) == 0,
    decreases n - k - made.len(),
{
    let seen: nat = k + made.len();
    let now = reservoir(k, positions(seen), made);
    if seen < n {
        let next: nat = seen + 1;
        let later = records(next, n);
        let all = records(seen, n);
        assert(all == next * later);
        lemma_reservoir_len(k, positions(seen), made);
        lemma_positions_distinct(k, seen, made);
        assert(positions(next) =~= positions(seen).push(seen));
        assert forall|v: nat| v < next implies {
            &&& #[trigger] reservoir(k, positions(next), made.push(v)) == if v < k {
                now.update(v as int, seen)
            } else {
                now
            }
            &&& records_keeping(k, n, None, made.push(v)) == later
            &&& p >= next ==> records_keeping(k, n, Some(p), made.push(v)) * n == k * later
            &&& p < next && reservoir(k, positions(next), made.push(v)).contains(p)
                ==> records_keeping(k, n, Some(p), made.push(v)) * n == next * later
            &&& p < next && !reservoir(k, positions(next), made.push(v)).contains(p)
                ==> records_keeping(k, n, Some(p), made.push(v)) == 0
        } by {
            lemma_reservoir_step(k, positions(seen), made, seen, v);
            lemma_records_from(k, n, p, made.push(v));
        }
        // Every record counts where no item is wanted.
        assert forall|v: nat| v < next implies #[trigger] records_keeping(
            k,
            n,
            None,
            made.push(v),
        ) * n == if is_counted(v, next, next) {
            later * n
        } else {
            0
        } by {
            assert(reservoir(k, positions(next), made.push(v)).len() >= 0);
        }
        lemma_sum_over_next_draw(k, n, None, made, next, next, next, later * n);
        assert(records_keeping(k, n, None, made) == all) by (nonlinear_arith)
            requires
                records_keeping(k, n, None, made) * n == next * (later * n),
                all == next * later,
                n > 0,
        ;
        if p > seen {
            // The item is still to come after this draw: every draw counts.
            assert forall|v: nat| v < next implies #[trigger] records_keeping(
                k,
                n,
                Some(p),
                made.push(v),
            ) * n == if is_counted(v, next, next) {
                k * later
            } else {
                0
            } by {
                assert(reservoir(k, positions(next), made.push(v)).len() >= 0);
            }
            lemma_sum_over_next_draw(k, n, Some(p), made, next, next, next, k * later);
            assert(next * (k * later) == k * all) by (nonlinear_arith)
                requires
                    all == next * later,
            ;
        } else if p == seen {
            // The item arrives with this draw: the draws below `k` keep it.
            assert forall|v: nat| v < next implies #[trigger] records_keeping(
                k,
                n,
                Some(p),
                made.push(v),
            ) * n == if is_counted(v, k, next) {
                all
            } else {
                0
            } by {
                let then = reservoir(k, positions(next), made.push(v));
                if v < k {
                    assert(then[v as int] == p);
                    assert(then.contains(p));
                    assert(records_keeping(k, n, Some(p), made.push(v)) * n == next * later);
                } else {
                    assert(then == now);
                    assert forall|j: int| 0 <= j < then.len() implies then[j] != p by {
                        assert(now[j] < seen);
                    }
                    assert(!then.contains(p));
                    assert(records_keeping(k, n, Some(p), made.push(v)) == 0);
                }
            }
            lemma_sum_over_next_draw(k, n, Some(p), made, next, k, next, all);
        } else if now.contains(p) {
            // The item is held at one place: every draw but that place keeps it.
            let place = choose|place: int| 0 <= place < now.len() && now[place] == p;
            let at: nat = place as nat;
            assert forall|v: nat| v < next implies #[trigger] records_keeping(
                k,
                n,
                Some(p),
                made.push(v),
            ) * n == if is_counted(v, next, at) {
                all
            } else {
                0
            } by {
                let then = reservoir(k, positions(next), made.push(v));
                if v == at {
                    assert(then == now.update(place, seen));
                    assert forall|j: int| 0 <= j < then.len() implies then[j] != p by {
                        if j != place {
                            assert(now[j] != now[place]);
                        }
                    }
                    assert(!then.contains(p));
                    assert(records_keeping(k, n, Some(p), made.push(v)) == 0);
                } else {
                    assert(then[place] == p);
                    assert(then.contains(p));
                    assert(records_keeping(k, n, Some(p), made.push(v)) * n == next * later);
                }
            }
            lemma_sum_over_next_draw(k, n, Some(p), made, next, next, at, all);
            assert(draws_counted(next, next, at) == seen);
            assert(records_keeping(k, n, Some(p), made) * n == seen * all);
        } else {
            // The item was lost before: no draw brings it back.
            assert forall|v: nat| v < next implies #[trigger] records_keeping(
                k,
                n,
                Some(p),
                made.push(v),
            ) * n == if is_counted(v, 0, next) {
                all
            } else {
                0
            } by {
                let then = reservoir(k, positions(next), made.push(v));
                assert forall|j: int| 0 <= j < then.len() implies then[j] != p by {
                    if then[j] != seen {
                        assert(now[j] == then[j]);
                    }
                }
                assert(!then.contains(p));
                assert(records_keeping(k, n, Some(p), made.push(v)) == 0);
            }
            lemma_sum_over_next_draw(k, n, Some(p), made, next, 0, next, all);
            assert(records_keeping(k, n, Some(p), made) == 0) by (nonlinear_arith)
                requires
                    records_keeping(k, n, Some(p), made) * n == 0 * all,
                    n > 0,
            ;
        }
    } else {
        assert(records(seen, n) == 1);
        assert(positions(seen) == positions(n));
        if now.contains(p) {
            assert(records_keeping(k, n, Some(p), made) == 1);
            assert(records_keeping(k, n, Some(p), made) * n == seen * records(seen, n));
        }
    }
}

/// Uniformity law: of the records of draws of a run over `n` items with a
/// reservoir of `k <= n` places, the share that leaves the item at position
/// `p` in the reservoir is `k / n`, the same for every position.
///
/// The records number `(k + 1) * (k + 2) * .. * n`, which is not zero, and
/// `n` times the number of those that keep `p` is `k` times the number of
/// all.
pub proof fn lemma_inclusion_uniform(k: nat, n: nat, p: nat)
    requires
        k <= n,
        p < n,
    ensures
        records_keeping(k, n, None, Seq::<nat>::empty()) == records(k, n),
        records(k, n) > 0,
        records_keeping(k, n, Some(p), Seq::<nat>::empty()) * n == k * records_keeping(
            k,
            n,
            None,
            Seq::<nat>::empty(),
        ),
{
    let none = Seq::<nat>::empty();
    lemma_records_positive(k, n);
    lemma_records_from(k, n, p, none);
    if p < k {
        assert(positions(k)[p as int] == p);
        assert(reservoir(k, positions(k), none).contains(p));
    }
}

} // verus!
