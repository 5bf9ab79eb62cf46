//! The feasibility sweep: one pass over the items in a given order.

use std::time::Instant;
use vstd::prelude::*;
use crate::clock::time_since;
use crate::instance::consume;
use crate::instance::fits;
use crate::instance::is_permutation;
use crate::instance::utilization_of;
use crate::instance::Filling;
use crate::knapsack::Knapsack;
use crate::laws::lemma_outcome_is_feasible;
use crate::ratio::Ratio;
use crate::statistics::Statistics;

verus! {

impl Knapsack {
    /// Whether the item at `position` fits into what remains. The comparison
    /// stops at the first dimension in which it does not.
    fn admits(&self, position: usize, remaining: &Vec<u16>) -> (fit: bool)
        requires
            self.wf(),
            position < self@.items.len(),
            remaining.len() == self@.capacity.len(),
        ensures
            fit == fits(self@.items[position as int].weights, remaining@),
    {
        let item = &self.items[position];
        assert(item@ == self@.items[position as int]);
        let mut d: usize = 0;
        while d < remaining.len()
            invariant
                d <= remaining.len() == item.weights.len(),
                position < self@.items.len(),
                item.weights@ == self@.items[position as int].weights,
                forall|e: int| 0 <= e < d ==> item.weights[e] <= remaining[e],
            decreases remaining.len() - d,
        {
            if item.weights[d] > remaining[d] {
                return false;
            }
            d = d + 1;
        }
        true
    }

    /// Takes the item at `position` out of what remains.
    fn commit(&self, position: usize, remaining: &mut Vec<u16>)
        requires
            self.wf(),
            position < self@.items.len(),
            old(remaining).len() == self@.capacity.len(),
            fits(self@.items[position as int].weights, old(remaining)@),
        ensures
            final(remaining)@ == consume(old(remaining)@, self@.items[position as int].weights),
    {
        let item = &self.items[position];
        assert(item@ == self@.items[position as int]);
        let ghost before = remaining@;
        let mut d: usize = 0;
        while d < remaining.len()
            invariant
                d <= remaining.len() == item.weights.len(),
                before.len() == remaining.len(),
                fits(item.weights@, before),
                forall|e: int| 0 <= e < d ==> remaining[e] == before[e] - item.weights[e],
                forall|e: int| d <= e < remaining.len() ==> remaining[e] == before[e],
            decreases remaining.len() - d,
        {
            let left = remaining[d] - item.weights[d];
            remaining.set(d, left);
            d = d + 1;
        }
    }

    /// The consumed part of each capacity when `remaining` is left of them.
    pub(crate) fn shares(&self, remaining: &Vec<u16>) -> (utilization: Vec<Ratio>)
        requires
            remaining.len() == self@.capacity.len(),
            forall|e: int| 0 <= e < remaining.len() ==> remaining[e] <= self@.capacity[e],
        ensures
            utilization@ == self@.utilization(remaining@),
    {
        let mut utilization: Vec<Ratio> = Vec::new();
        let mut d: usize = 0;
        while d < self.capacity.len()
            invariant
                d <= self.capacity.len() == remaining.len(),
                forall|e: int| 0 <= e < remaining.len() ==> remaining[e] <= self.capacity[e],
                utilization.len() == d,
                forall|e: int|
                    0 <= e < d ==> utilization[e] == utilization_of(self.capacity[e], remaining[e]),
            decreases self.capacity.len() - d,
        {
            let capacity = self.capacity[d];
            let share = if capacity == 0 {
                Ratio { numerator: 0, denominator: 1 }
            } else {
                Ratio { numerator: (capacity - remaining[d]) as u32, denominator: capacity as u32 }
            };
            utilization.push(share);
            d = d + 1;
        }
        utilization
    }

    /// Runs the feasibility sweep over the items in the given order: each item
    /// in turn is taken if it fits into what the items taken before it have
    /// left in every dimension, and is passed over for good if it does not.
    pub fn sweep(&self, order: &Vec<usize>) -> (stats: Statistics)
        requires
            self.wf(),
            is_permutation(order@, self@.items.len()),
        ensures
            stats@ == self@.outcome(order@, 1),
            self@.feasible(stats.picked_items@),
            self@.shares_sound(stats.utilization@),
            stats.picked_items@.no_duplicates(),
    {
        proof {
            lemma_outcome_is_feasible(self@, order@, 1);
        }
        let start = Instant::now();
        let mut remaining: Vec<u16> = Vec::new();
        let mut d: usize = 0;
        while d < self.capacity.len()
            invariant
                d <= self.capacity.len(),
                remaining.len() == d,
                forall|e: int| 0 <= e < d ==> remaining[e] == self.capacity[e],
            decreases self.capacity.len() - d,
        {
            remaining.push(self.capacity[d]);
            d = d + 1;
        }
        assert(remaining@ == self@.capacity);
        let mut picked_items: Vec<usize> = Vec::new();
        let mut total_profit: u32 = 0;
        let ghost mut picked: Seq<usize> = Seq::empty();
        let mut k: usize = 0;
        assert(order@.take(0) == Seq::<usize>::empty());
        while k < order.len()
            invariant
                self.wf(),
                is_permutation(order@, self@.items.len()),
                k <= order.len(),
                self@.sweep(order@.take(k as int)) == (Filling { picked, remaining: remaining@ }),
                remaining.len() == self@.capacity.len(),
                forall|e: int| 0 <= e < remaining.len() ==> remaining[e] <= self@.capacity[e],
                picked_items@ == self@.ids_of(picked),
                total_profit == self@.profit_of(picked),
                total_profit <= k * u16::MAX,
            decreases order.len() - k,
        {
            let position = order[k];
            assert(order@.take(k + 1).drop_last() == order@.take(k as int));
            if self.admits(position, &remaining) {
                self.commit(position, &mut remaining);
                let item = &self.items[position];
                assert(item@ == self@.items[position as int]);
                picked_items.push(item.id);
                total_profit = total_profit + item.profit as u32;
                proof {
                    assert(picked.push(position).drop_last() == picked);
                    picked = picked.push(position);
                }
            }
            k = k + 1;
        }
        assert(order@.take(k as int) == order@);
        let utilization = self.shares(&remaining);
        Statistics { total_profit, picked_items, utilization, duration: time_since(start), runs: 1 }
    }
}

} // verus!
