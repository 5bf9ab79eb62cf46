//! What holds of every sweep, whatever the order, and of the reports built
//! from sweeps.

use vstd::prelude::*;
use crate::instance::in_range;
use crate::instance::is_permutation;
use crate::instance::Instance;
use crate::item::total;
use crate::item::ItemModel;
use crate::statistics::Outcome;

verus! {

/// Where the item at position `x` comes to stand among `ranked`.
pub open spec fn place(instance: Instance, ranked: Seq<usize>, x: usize) -> int
    decreases ranked.len(),
{
    if ranked.len() > 0 && instance.items[x as int].outranks(instance.items[ranked.last() as int]) {
        place(instance, ranked.drop_last(), x)
    } else {
        ranked.len() as int
    }
}

/// Whether the positions stand in ranked order: none outranks one that stands
/// before it, and of two that do not outrank one another the one that came
/// first in the input stands first.
pub open spec fn is_ranked(instance: Instance, ranked: Seq<usize>) -> bool {
    &&& forall|a: int, b: int|
        0 <= a < b < ranked.len() ==> !instance.items[#[trigger] ranked[b] as int].outranks(
            instance.items[#[trigger] ranked[a] as int],
        )
    &&& forall|a: int, b: int|
        0 <= a < b < ranked.len() && !instance.items[#[trigger] ranked[a] as int].outranks(
            instance.items[#[trigger] ranked[b] as int],
        ) ==> ranked[a] < ranked[b]
}

/// A sweep takes items of the instance only, and what it has taken in a
/// dimension together with what it has left there is that dimension's capacity.
pub proof fn lemma_sweep_conserves(instance: Instance, order: Seq<usize>)
    requires
        instance.valid(),
        in_range(order, instance.items.len()),
    ensures
        in_range(instance.sweep(order).picked, instance.items.len()),
        instance.sweep(order).picked.len() <= order.len(),
        instance.sweep(order).remaining.len() == instance.capacity.len(),
        forall|d: int|
            0 <= d < instance.capacity.len() ==> instance.load_of(instance.sweep(order).picked, d)
                + #[trigger] instance.sweep(order).remaining[d] == instance.capacity[d],
    decreases order.len(),
{
    if order.len() > 0 {
        let earlier = order.drop_last();
        lemma_sweep_conserves(instance, earlier);
        let before = instance.sweep(earlier);
        let after = instance.sweep(order);
        let weights = instance.items[order.last() as int].weights;
        assert(weights.len() == instance.capacity.len());
        if after != before {
            assert(after.picked.drop_last() == before.picked);
            assert forall|d: int| 0 <= d < instance.capacity.len() implies instance.load_of(
                after.picked,
                d,
            ) + #[trigger] after.remaining[d] == instance.capacity[d] by {
                assert(weights[d] <= before.remaining[d]);
            }
        }
    }
}

/// A sweep takes only items of its order, and where the order names no item
/// twice, it takes no item twice.
pub proof fn lemma_sweep_takes_once(instance: Instance, order: Seq<usize>)
    requires
        order.no_duplicates(),
    ensures
        forall|k: int|
            0 <= k < instance.sweep(order).picked.len() ==> order.contains(
                #[trigger] instance.sweep(order).picked[k],
            ),
        instance.sweep(order).picked.no_duplicates(),
    decreases order.len(),
{
    if order.len() > 0 {
        let earlier = order.drop_last();
        lemma_sweep_takes_once(instance, earlier);
        let before = instance.sweep(earlier).picked;
        let after = instance.sweep(order).picked;
        assert forall|k: int| 0 <= k < before.len() implies order.contains(
            #[trigger] before[k],
        ) && before[k] != order.last() by {
            assert(earlier.contains(before[k]));
            let at = choose|at: int| 0 <= at < earlier.len() && earlier[at] == before[k];
            assert(order[at] == before[k]);
        }
        assert(order.contains(order.last())) by {
            assert(order[order.len() - 1] == order.last());
        }
        assert forall|k: int| 0 <= k < after.len() implies order.contains(#[trigger] after[k]) by {
            if k < before.len() {
                assert(after[k] == before[k]);
            }
        }
        assert forall|a: int, b: int| 0 <= a < after.len() && 0 <= b < after.len() && a != b implies after[a]
            != after[b] by {
            if a < before.len() {
                assert(after[a] == before[a]);
            }
            if b < before.len() {
                assert(after[b] == before[b]);
            }
        }
    }
}

/// The items at the given positions consume what the items of their ids
/// consume: an id is a position counted from 1.
pub proof fn lemma_load_by_ids(instance: Instance, picked: Seq<usize>, d: int)
    requires
        instance.valid(),
        in_range(picked, instance.items.len()),
    ensures
        instance.weight_of(instance.ids_of(picked), d) == instance.load_of(picked, d),
    decreases picked.len(),
{
    if picked.len() > 0 {
        lemma_load_by_ids(instance, picked.drop_last(), d);
        assert(instance.ids_of(picked).drop_last() == instance.ids_of(picked.drop_last()));
        assert(instance.items[picked.last() as int].id == picked.last() + 1);
    }
}

/// No sweep exceeds a capacity: in every dimension, the weights of the items
/// that it reports as selected sum to no more than the capacity. The shares
/// that it reports lie between 0 and 1, with 0 for a dimension without
/// capacity. And it reports no item twice unless its order names one twice.
pub proof fn lemma_outcome_is_feasible(instance: Instance, order: Seq<usize>, runs: nat)
    requires
        instance.valid(),
        in_range(order, instance.items.len()),
    ensures
        instance.feasible(instance.outcome(order, runs).picked_items),
        instance.shares_sound(instance.outcome(order, runs).utilization),
        instance.outcome(order, runs).picked_items.len() <= order.len(),
        order.no_duplicates() ==> instance.outcome(order, runs).picked_items.no_duplicates(),
{
    lemma_sweep_conserves(instance, order);
    let filling = instance.sweep(order);
    if order.no_duplicates() {
        lemma_sweep_takes_once(instance, order);
        let ids = instance.outcome(order, runs).picked_items;
        assert forall|a: int, b: int| 0 <= a < ids.len() && 0 <= b < ids.len() && a != b implies ids[a]
            != ids[b] by {
            assert(instance.items[filling.picked[a] as int].id == filling.picked[a] + 1);
            assert(instance.items[filling.picked[b] as int].id == filling.picked[b] + 1);
        }
    }
    assert forall|d: int| 0 <= d < instance.capacity.len() implies instance.weight_of(
        instance.outcome(order, runs).picked_items,
        d,
    ) <= instance.capacity[d] by {
        lemma_load_by_ids(instance, filling.picked, d);
        assert(instance.load_of(filling.picked, d) + filling.remaining[d] == instance.capacity[d]);
    }
    let utilization = instance.outcome(order, runs).utilization;
    assert forall|d: int| 0 <= d < instance.capacity.len() implies (
    #[trigger] utilization[d]).within_unit() && (instance.capacity[d] == 0
        ==> utilization[d].is_zero()) by {
        assert(instance.load_of(filling.picked, d) + filling.remaining[d] == instance.capacity[d]);
    }
}

/// What a batch of trials reports is feasible as well, and is the report of
/// as many runs as there were trials.
pub proof fn lemma_batch_outcome_is_feasible(instance: Instance, orders: Seq<Seq<usize>>)
    requires
        instance.valid(),
        forall|i: int| 0 <= i < orders.len() ==> in_range(#[trigger] orders[i], instance.items.len()),
    ensures
        instance.feasible(instance.batch_outcome(orders).picked_items),
        instance.shares_sound(instance.batch_outcome(orders).utilization),
        instance.batch_outcome(orders).runs == orders.len(),
        (forall|i: int| 0 <= i < orders.len() ==> (#[trigger] orders[i]).no_duplicates())
            ==> instance.batch_outcome(orders).picked_items.no_duplicates(),
{
    if orders.len() == 0 {
        lemma_outcome_is_feasible(instance, Seq::empty(), 0);
    } else {
        lemma_best_is_first_maximum(instance, orders);
        lemma_outcome_is_feasible(instance, orders[instance.best(orders)], orders.len());
    }
}

/// The winner of a batch gathers at least the profit of every trial of the
/// batch, and more than that of every trial before it.
pub proof fn lemma_best_is_first_maximum(instance: Instance, orders: Seq<Seq<usize>>)
    requires
        orders.len() > 0,
    ensures
        0 <= instance.best(orders) < orders.len(),
        forall|i: int|
            0 <= i < orders.len() ==> instance.profit_under(#[trigger] orders[i])
                <= instance.profit_under(orders[instance.best(orders)]),
        forall|i: int|
            0 <= i < instance.best(orders) ==> instance.profit_under(#[trigger] orders[i])
                < instance.profit_under(orders[instance.best(orders)]),
    decreases orders.len(),
{
    if orders.len() > 1 {
        let earlier = orders.drop_last();
        lemma_best_is_first_maximum(instance, earlier);
        assert forall|i: int| 0 <= i < orders.len() implies instance.profit_under(
            #[trigger] orders[i],
        ) <= instance.profit_under(orders[instance.best(orders)]) by {
            if i < earlier.len() {
                assert(earlier[i] == orders[i]);
            }
        }
        assert forall|i: int| 0 <= i < instance.best(orders) implies instance.profit_under(
            #[trigger] orders[i],
        ) < instance.profit_under(orders[instance.best(orders)]) by {
            assert(earlier[i] == orders[i]);
        }
    }
}

/// The profit that a batch reports is at least the profit of each of its
/// trials.
pub proof fn lemma_batch_reports_the_best(instance: Instance, orders: Seq<Seq<usize>>, i: int)
    requires
        0 <= i < orders.len(),
    ensures
        instance.profit_under(orders[i]) <= instance.batch_outcome(orders).total_profit,
{
    lemma_best_is_first_maximum(instance, orders);
}

/// The greedy heuristic is deterministic: two of its reports on one instance
/// name the same items, in the same order, with the same profit.
pub proof fn lemma_greedy_is_deterministic(instance: Instance, first: Outcome, second: Outcome)
    requires
        first == instance.outcome(instance.ranking(), 1),
        second == instance.outcome(instance.ranking(), 1),
    ensures
        first.picked_items == second.picked_items,
        first.total_profit == second.total_profit,
{
}

/// An item that outranks everything from place `j` on, and not the item just
/// before that place, comes to stand at place `j`.
pub proof fn lemma_insert_place(instance: Instance, ranked: Seq<usize>, x: usize, j: int)
    requires
        0 <= j <= ranked.len(),
        forall|t: int|
            j <= t < ranked.len() ==> instance.items[x as int].outranks(
                instance.items[#[trigger] ranked[t] as int],
            ),
        j > 0 ==> !instance.items[x as int].outranks(instance.items[ranked[j - 1] as int]),
    ensures
        instance.insert_ranked(ranked, x) == ranked.insert(j, x),
    decreases ranked.len(),
{
    if j == ranked.len() {
        assert(ranked.push(x) == ranked.insert(j, x));
    } else {
        lemma_insert_place(instance, ranked.drop_last(), x, j);
        assert(ranked.drop_last().insert(j, x).push(ranked.last()) == ranked.insert(j, x));
    }
}

/// Putting the next position into an arrangement of the positions before it
/// gives an arrangement again.
pub proof fn lemma_insert_keeps_permutation(ranked: Seq<usize>, count: usize, j: int)
    requires
        is_permutation(ranked, count as nat),
        0 <= j <= ranked.len(),
        count < usize::MAX,
    ensures
        is_permutation(ranked.insert(j, count), (count + 1) as nat),
{
    let after = ranked.insert(j, count);
    assert forall|a: int, b: int| 0 <= a < after.len() && 0 <= b < after.len() && a != b implies after[a]
        != after[b] by {
        let from_a = if a < j { a } else { a - 1 };
        let from_b = if b < j { b } else { b - 1 };
        if a != j && b != j {
            assert(after[a] == ranked[from_a]);
            assert(after[b] == ranked[from_b]);
        } else if a == j {
            assert(after[b] == ranked[from_b]);
        } else {
            assert(after[a] == ranked[from_a]);
        }
    }
    assert forall|k: int| 0 <= k < after.len() implies after[k] < count + 1 by {
        if k != j {
            let from_k = if k < j { k } else { k - 1 };
            assert(after[k] == ranked[from_k]);
        }
    }
}

/// Among items that all consume something, not to be outranked carries over:
/// if `x` does not outrank `y`, and `y` does not outrank `z`, then `x` does not
/// outrank `z`.
proof fn lemma_not_outranked_carries(x: ItemModel, y: ItemModel, z: ItemModel)
    requires
        total(x.weights) > 0,
        total(y.weights) > 0,
        total(z.weights) > 0,
        !x.outranks(y),
        !y.outranks(z),
    ensures
        !x.outranks(z),
{
    let px = x.profit as int;
    let py = y.profit as int;
    let pz = z.profit as int;
    let wx = total(x.weights) as int;
    let wy = total(y.weights) as int;
    let wz = total(z.weights) as int;
    assert(px * wz <= pz * wx) by (nonlinear_arith)
        requires
            wx > 0,
            wy > 0,
            wz > 0,
            px >= 0,
            py >= 0,
            pz >= 0,
            px * wy <= py * wx,
            py * wz <= pz * wy,
    {
        assert(px * wy * wz <= py * wx * wz);
        assert(py * wz * wx <= pz * wy * wx);
        assert(px * wz * wy <= pz * wx * wy);
    }
}

/// The item that is put in comes to stand at its place: just behind the last
/// item that it does not outrank, and before items that it outranks, all of
/// them.
pub proof fn lemma_place(instance: Instance, ranked: Seq<usize>, x: usize)
    ensures
        0 <= place(instance, ranked, x) <= ranked.len(),
        instance.insert_ranked(ranked, x) == ranked.insert(place(instance, ranked, x), x),
        forall|t: int|
            place(instance, ranked, x) <= t < ranked.len() ==> instance.items[x as int].outranks(
                instance.items[#[trigger] ranked[t] as int],
            ),
        place(instance, ranked, x) > 0 ==> !instance.items[x as int].outranks(
            instance.items[ranked[place(instance, ranked, x) - 1] as int],
        ),
    decreases ranked.len(),
{
    let j = place(instance, ranked, x);
    if ranked.len() > 0 && instance.items[x as int].outranks(instance.items[ranked.last() as int]) {
        lemma_place(instance, ranked.drop_last(), x);
        assert forall|t: int| j <= t < ranked.len() implies instance.items[x as int].outranks(
            instance.items[#[trigger] ranked[t] as int],
        ) by {
            if t < ranked.len() - 1 {
                assert(ranked.drop_last()[t] == ranked[t]);
            }
        }
    }
    lemma_insert_place(instance, ranked, x, j);
}

/// The ranking of the first `count` items arranges exactly their positions.
pub proof fn lemma_ranking_is_permutation(instance: Instance, count: nat)
    requires
        count <= instance.items.len() <= usize::MAX,
    ensures
        is_permutation(instance.ranking_of_first(count), count),
    decreases count,
{
    if count > 0 {
        let before = instance.ranking_of_first((count - 1) as nat);
        let x = (count - 1) as usize;
        lemma_ranking_is_permutation(instance, (count - 1) as nat);
        lemma_place(instance, before, x);
        lemma_insert_keeps_permutation(before, x, place(instance, before, x));
    }
}

/// Where every item consumes something, the ranking is in ranked order: the
/// profit per unit of total weight never rises along it, and items of equal
/// profit per unit of total weight keep their input order.
pub proof fn lemma_ranking_is_ranked(instance: Instance, count: nat)
    requires
        count <= instance.items.len() <= usize::MAX,
        forall|i: int| 0 <= i < instance.items.len() ==> total(#[trigger] instance.items[i].weights) > 0,
    ensures
        is_ranked(instance, instance.ranking_of_first(count)),
    decreases count,
{
    if count > 0 {
        let before = instance.ranking_of_first((count - 1) as nat);
        let x = (count - 1) as usize;
        lemma_ranking_is_ranked(instance, (count - 1) as nat);
        lemma_ranking_is_permutation(instance, (count - 1) as nat);
        lemma_place(instance, before, x);
        let j = place(instance, before, x);
        let after = before.insert(j, x);
        let new = instance.items[x as int];
        assert forall|a: int| 0 <= a < j implies !new.outranks(
            instance.items[#[trigger] before[a] as int],
        ) by {
            if a < j - 1 {
                lemma_not_outranked_carries(
                    new,
                    instance.items[before[j - 1] as int],
                    instance.items[before[a] as int],
                );
            }
        }
        assert forall|a: int, b: int| 0 <= a < b < after.len() implies !instance.items[
            #[trigger] after[b] as int].outranks(instance.items[#[trigger] after[a] as int]) by {
            let from_a = if a < j { a } else { a - 1 };
            let from_b = if b < j { b } else { b - 1 };
            if a != j {
                assert(after[a] == before[from_a]);
            }
            if b != j {
                assert(after[b] == before[from_b]);
            }
        }
        assert forall|a: int, b: int|
            0 <= a < b < after.len() && !instance.items[#[trigger] after[a] as int].outranks(
                instance.items[#[trigger] after[b] as int],
            ) implies after[a] < after[b] by {
            let from_a = if a < j { a } else { a - 1 };
            let from_b = if b < j { b } else { b - 1 };
            if a != j {
                assert(after[a] == before[from_a]);
            }
            if b != j {
                assert(after[b] == before[from_b]);
            }
        }
    }
}

} // verus!
