//! The greedy heuristic: rank the items by profit per unit of total weight,
//! then sweep once.

use std::time::Instant;
use vstd::prelude::*;
use crate::clock::time_since;
use crate::instance::is_permutation;
use crate::item::total;
use crate::knapsack::Knapsack;
use crate::laws::is_ranked;
use crate::laws::lemma_insert_keeps_permutation;
use crate::laws::lemma_insert_place;
use crate::laws::lemma_ranking_is_ranked;
use crate::statistics::Statistics;

verus! {

impl Knapsack {
    /// Ranks the items: the positions of all of them, those of greater profit
    /// per unit of total weight first.
    pub fn rank(&self) -> (order: Vec<usize>)
        requires
            self.wf(),
        ensures
            order@ == self@.ranking(),
            is_permutation(order@, self@.items.len()),
            (forall|i: int|
                0 <= i < self@.items.len() ==> total(#[trigger] self@.items[i].weights) > 0)
                ==> is_ranked(self@, order@),
    {
        proof {
            if forall|i: int|
                0 <= i < self@.items.len() ==> total(#[trigger] self@.items[i].weights) > 0 {
                lemma_ranking_is_ranked(self@, self@.items.len());
            }
        }
        let mut order: Vec<usize> = Vec::new();
        let mut k: usize = 0;
        while k < self.n
            invariant
                self.wf(),
                k <= self.n,
                order@ == self@.ranking_of_first(k as nat),
                is_permutation(order@, k as nat),
            decreases self.n - k,
        {
            let mut j: usize = order.len();
            while j > 0 && self.items[k].outranks(&self.items[order[j - 1]])
                invariant
                    self.wf(),
                    k < self.n,
                    is_permutation(order@, k as nat),
                    j <= order.len(),
                    forall|t: int|
                        j <= t < order.len() ==> self@.items[k as int].outranks(
                            self@.items[#[trigger] order[t] as int],
                        ),
                decreases j,
            {
                j = j - 1;
            }
            proof {
                lemma_insert_place(self@, order@, k, j as int);
                lemma_insert_keeps_permutation(order@, k, j as int);
            }
            order.insert(j, k);
            k = k + 1;
        }
        order
    }

    /// Runs the greedy heuristic: one feasibility sweep over the ranked items.
    pub fn run_greedy(&self) -> (stats: Statistics)
        requires
            self.wf(),
        ensures
            stats@ == self@.outcome(self@.ranking(), 1),
            stats.runs == 1,
            self@.feasible(stats.picked_items@),
            self@.shares_sound(stats.utilization@),
            stats.picked_items@.no_duplicates(),
    {
        let start = Instant::now();
        let order = self.rank();
        let mut stats = self.sweep(&order);
        stats.duration = time_since(start);
        stats
    }
}

} // verus!
