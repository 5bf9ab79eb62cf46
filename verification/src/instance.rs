//! The problem and the feasibility sweep, as mathematics.

use vstd::prelude::*;
use crate::item::ItemModel;
use crate::ratio::Ratio;
use crate::statistics::Outcome;

verus! {

/// Whether an item of the given weights fits into what remains: in every
/// dimension at once.
pub open spec fn fits(weights: Seq<u16>, remaining: Seq<u16>) -> bool {
    forall|d: int| 0 <= d < remaining.len() ==> weights[d] <= remaining[d]
}

/// What remains once an item of the given weights has been taken.
pub open spec fn consume(remaining: Seq<u16>, weights: Seq<u16>) -> Seq<u16> {
    Seq::new(remaining.len(), |d: int| (remaining[d] - weights[d]) as u16)
}

/// Whether every position of the order is the position of an item.
pub open spec fn in_range(order: Seq<usize>, n: nat) -> bool {
    forall|k: int| 0 <= k < order.len() ==> order[k] < n
}

/// Whether `order` arranges the positions `0 .. n`, each exactly once.
pub open spec fn is_permutation(order: Seq<usize>, n: nat) -> bool {
    &&& order.len() == n
    &&& forall|k: int| 0 <= k < order.len() ==> order[k] < n
    &&& order.no_duplicates()
}

/// The consumed part of a capacity of which `remaining` is left; zero for a
/// capacity of zero.
pub open spec fn utilization_of(capacity: u16, remaining: u16) -> Ratio {
    if capacity == 0 {
        Ratio { numerator: 0, denominator: 1 }
    } else {
        Ratio { numerator: (capacity - remaining) as u32, denominator: capacity as u32 }
    }
}

/// The state of a sweep: which items were taken so far, by position and in the
/// order of their selection, and what is left of each capacity.
#[verifier::ext_equal]
pub struct Filling {
    pub picked: Seq<usize>,
    pub remaining: Seq<u16>,
}

/// A problem instance as contracts see it.
#[verifier::ext_equal]
pub struct Instance {
    /// The items, in input order.
    pub items: Seq<ItemModel>,
    /// The capacity of each dimension.
    pub capacity: Seq<u16>,
}

impl Instance {
    /// There is at least one item and one dimension, no more of either than a
    /// 16-bit count can announce; every item has one weight per dimension and
    /// its position, counted from 1, as its id.
    pub open spec fn valid(self) -> bool {
        &&& 1 <= self.items.len() <= u16::MAX
        &&& 1 <= self.capacity.len() <= u16::MAX
        &&& forall|i: int|
            0 <= i < self.items.len() ==> (#[trigger] self.items[i]).weights.len()
                == self.capacity.len()
        &&& forall|i: int| 0 <= i < self.items.len() ==> (#[trigger] self.items[i]).id == i + 1
    }

    /// `ranked` with the item at position `x` put in: it moves toward the
    /// front past every item that it outranks and stops behind the first one
    /// that it does not outrank.
    pub open spec fn insert_ranked(self, ranked: Seq<usize>, x: usize) -> Seq<usize>
        decreases ranked.len(),
    {
        if ranked.len() > 0 && self.items[x as int].outranks(self.items[ranked.last() as int]) {
            self.insert_ranked(ranked.drop_last(), x).push(ranked.last())
        } else {
            ranked.push(x)
        }
    }

    /// The ranking of the first `count` items: each in turn, in input order,
    /// is put in among those that came before it.
    pub open spec fn ranking_of_first(self, count: nat) -> Seq<usize>
        decreases count,
    {
        if count == 0 {
            Seq::empty()
        } else {
            self.insert_ranked(self.ranking_of_first((count - 1) as nat), (count - 1) as usize)
        }
    }

    /// The positions of all items, those of greater profit per unit of total
    /// weight first. Items that do not outrank one another keep their input
    /// order; an item of total weight zero keeps its place among its neighbours.
    pub open spec fn ranking(self) -> Seq<usize> {
        self.ranking_of_first(self.items.len())
    }

    /// The feasibility sweep over `order`: one forward pass in which an item
    /// is taken if and only if it fits into what the items taken before it
    /// have left, and is never looked at again.
    pub open spec fn sweep(self, order: Seq<usize>) -> Filling
        decreases order.len(),
    {
        if order.len() == 0 {
            Filling { picked: Seq::empty(), remaining: self.capacity }
        } else {
            let before = self.sweep(order.drop_last());
            let item = self.items[order.last() as int];
            if fits(item.weights, before.remaining) {
                Filling {
                    picked: before.picked.push(order.last()),
                    remaining: consume(before.remaining, item.weights),
                }
            } else {
                before
            }
        }
    }

    /// The sum of the profits of the items at the given positions.
    pub open spec fn profit_of(self, picked: Seq<usize>) -> nat
        decreases picked.len(),
    {
        if picked.len() == 0 {
            0
        } else {
            self.profit_of(picked.drop_last()) + self.items[picked.last() as int].profit as nat
        }
    }

    /// What the items at the given positions consume together in dimension `d`.
    pub open spec fn load_of(self, picked: Seq<usize>, d: int) -> nat
        decreases picked.len(),
    {
        if picked.len() == 0 {
            0
        } else {
            self.load_of(picked.drop_last(), d) + self.items[picked.last() as int].weights[d] as nat
        }
    }

    /// What the items of the given ids consume together in dimension `d`.
    pub open spec fn weight_of(self, ids: Seq<usize>, d: int) -> nat
        decreases ids.len(),
    {
        if ids.len() == 0 {
            0
        } else {
            self.weight_of(ids.drop_last(), d) + self.items[ids.last() - 1].weights[d] as nat
        }
    }

    /// Whether the items of the given ids stay within the capacity of every
    /// dimension.
    pub open spec fn feasible(self, ids: Seq<usize>) -> bool {
        forall|d: int| 0 <= d < self.capacity.len() ==> self.weight_of(ids, d) <= self.capacity[d]
    }

    /// Whether there is one share per dimension, each between 0 and 1, and
    /// zero for a dimension without capacity.
    pub open spec fn shares_sound(self, utilization: Seq<Ratio>) -> bool {
        &&& utilization.len() == self.capacity.len()
        &&& forall|d: int|
            0 <= d < self.capacity.len() ==> (#[trigger] utilization[d]).within_unit()
        &&& forall|d: int|
            0 <= d < self.capacity.len() && self.capacity[d] == 0 ==> (
            #[trigger] utilization[d]).is_zero()
    }

    /// The ids of the items at the given positions.
    pub open spec fn ids_of(self, picked: Seq<usize>) -> Seq<usize> {
        Seq::new(picked.len(), |k: int| self.items[picked[k] as int].id)
    }

    /// Per dimension, the consumed part of the capacity when `remaining` is left.
    pub open spec fn utilization(self, remaining: Seq<u16>) -> Seq<Ratio> {
        Seq::new(self.capacity.len(), |d: int| utilization_of(self.capacity[d], remaining[d]))
    }

    /// The profit that a sweep over `order` gathers.
    pub open spec fn profit_under(self, order: Seq<usize>) -> nat {
        self.profit_of(self.sweep(order).picked)
    }

    /// Which of the orders wins: the first of those under which the sweep
    /// gathers the greatest profit. Zero where there is no order at all.
    pub open spec fn best(self, orders: Seq<Seq<usize>>) -> int
        decreases orders.len(),
    {
        if orders.len() <= 1 {
            0
        } else {
            let earlier = self.best(orders.drop_last());
            if self.profit_under(orders.last()) > self.profit_under(orders[earlier]) {
                orders.len() - 1
            } else {
                earlier
            }
        }
    }

    /// What a batch of trials reports, one trial per order: the outcome of the
    /// winning trial, as the result of as many runs as there are trials. A
    /// batch without trials reports that nothing was taken.
    pub open spec fn batch_outcome(self, orders: Seq<Seq<usize>>) -> Outcome {
        if orders.len() == 0 {
            self.outcome(Seq::empty(), 0)
        } else {
            self.outcome(orders[self.best(orders)], orders.len())
        }
    }

    /// What a sweep over `order` reports, as the result of `runs` trials.
    pub open spec fn outcome(self, order: Seq<usize>, runs: nat) -> Outcome {
        let filling = self.sweep(order);
        Outcome {
            total_profit: self.profit_of(filling.picked),
            picked_items: self.ids_of(filling.picked),
            utilization: self.utilization(filling.remaining),
            runs,
        }
    }
}

} // verus!
