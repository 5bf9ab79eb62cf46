//! The randomized multi-start heuristic: many sweeps, each over a random
//! order of its own, evaluated in parallel; the most profitable one is
//! reported.

use std::time::Instant;
use rand::thread_rng;
use rand::Rng;
use rayon::iter::IntoParallelRefMutIterator;
use rayon::iter::ParallelIterator;
use vstd::prelude::*;
use crate::clock::time_since;
use crate::instance::is_permutation;
use crate::instance::Instance;
use crate::knapsack::Knapsack;
use crate::laws::lemma_batch_outcome_is_feasible;
use crate::laws::lemma_batch_reports_the_best;
use crate::laws::lemma_best_is_first_maximum;
use crate::statistics::Statistics;

verus! {

/// One randomized construction attempt: the order in which it looks at the
/// items and, once it has been evaluated, what it found. A trial shares
/// nothing that changes with any other trial.
#[derive(Debug)]
pub struct Trial {
    /// Positions of the items, in the order in which the sweep looks at them.
    pub order: Vec<usize>,
    /// What the sweep reported; nothing before the trial is evaluated.
    pub result: Option<Statistics>,
}

impl Trial {
    /// A trial over the given order that has not been evaluated yet.
    pub fn new(order: Vec<usize>) -> (trial: Trial)
        ensures
            trial.order == order,
            trial.result is None,
    {
        Trial { order, result: None }
    }
}

/// The orders of the given trials.
pub open spec fn orders_of(trials: Seq<Trial>) -> Seq<Seq<usize>> {
    Seq::new(trials.len(), |i: int| trials[i].order@)
}

/// Whether every trial runs over an arrangement of all `n` items.
pub open spec fn all_permutations(orders: Seq<Seq<usize>>, n: nat) -> bool {
    forall|i: int| 0 <= i < orders.len() ==> is_permutation(#[trigger] orders[i], n)
}

/// Whether the trial was evaluated on `instance`: it kept its order and holds
/// what the sweep over that order reports.
pub open spec fn evaluated(instance: Instance, before: Trial, after: Trial) -> bool {
    &&& after.order@ == before.order@
    &&& after.result matches Some(stats) && stats@ == instance.outcome(before.order@, 1)
}

/// Calls `Rng::shuffle` of rand on the generator that `thread_rng` hands out.
/// The shuffle only swaps elements of the slice, so the vector holds afterwards
/// what it held before, each value as often as before. Nothing is claimed of
/// the order, which is random.
#[verifier::external_body]
fn shuffle(order: &mut Vec<usize>)
    ensures
        final(order)@.to_multiset() == old(order)@.to_multiset(),
{
    thread_rng().shuffle(order);
}

/// Calls `par_iter_mut` and `for_each` of rayon: `Knapsack::evaluate` is
/// executed once on each trial of the vector, in parallel. So the vector keeps
/// its length, and each trial is afterwards what `evaluate` makes of it.
#[verifier::external_body]
fn evaluate_all(knapsack: &Knapsack, trials: &mut Vec<Trial>)
    requires
        knapsack.wf(),
        all_permutations(orders_of(old(trials)@), knapsack@.items.len()),
    ensures
        final(trials).len() == old(trials).len(),
        forall|i: int|
            0 <= i < old(trials).len() ==> evaluated(
                knapsack@,
                old(trials)[i],
                #[trigger] final(trials)[i],
            ),
{
    trials.par_iter_mut().for_each(|trial| knapsack.evaluate(trial));
}

/// The positions `0 .. n` in rising order are an arrangement of them, and so
/// is whatever holds the same values equally often.
proof fn lemma_rearranged(identity: Seq<usize>, shuffled: Seq<usize>)
    requires
        forall|k: int| 0 <= k < identity.len() ==> identity[k] == k,
        shuffled.to_multiset() == identity.to_multiset(),
    ensures
        is_permutation(shuffled, identity.len()),
{
    broadcast use vstd::seq_lib::to_multiset_len, vstd::seq_lib::to_multiset_contains;

    assert(shuffled.len() == shuffled.to_multiset().len());
    assert(identity.len() == identity.to_multiset().len());
    assert forall|k: int| 0 <= k < shuffled.len() implies shuffled[k] < identity.len() by {
        assert(shuffled.contains(shuffled[k]));
        assert(shuffled.to_multiset().count(shuffled[k]) > 0);
        assert(identity.contains(shuffled[k]));
    }
    assert(identity.no_duplicates());
    identity.lemma_multiset_has_no_duplicates();
    shuffled.lemma_multiset_has_no_duplicates_conv();
}

impl Knapsack {
    /// Evaluates one trial: sweeps over its order and keeps the report. The
    /// sweep consumes a copy of the capacities that this call alone owns.
    pub fn evaluate(&self, trial: &mut Trial)
        requires
            self.wf(),
            is_permutation(old(trial).order@, self@.items.len()),
        ensures
            evaluated(self@, *old(trial), *final(trial)),
    {
        let stats = self.sweep(&trial.order);
        trial.result = Some(stats);
    }

    /// Draws a random order of all items.
    fn draw_order(&self) -> (order: Vec<usize>)
        requires
            self.wf(),
        ensures
            is_permutation(order@, self@.items.len()),
    {
        let mut order: Vec<usize> = Vec::new();
        let mut i: usize = 0;
        while i < self.n
            invariant
                i <= self.n,
                order.len() == i,
                forall|k: int| 0 <= k < i ==> order[k] == k,
            decreases self.n - i,
        {
            order.push(i);
            i = i + 1;
        }
        let ghost identity = order@;
        shuffle(&mut order);
        proof {
            lemma_rearranged(identity, order@);
        }
        order
    }

    /// The report of a batch in which nothing was tried: no item, no profit,
    /// nothing consumed, no run.
    fn nothing_tried(&self, start: Instant) -> (stats: Statistics)
        requires
            self.wf(),
        ensures
            stats@ == self@.outcome(Seq::empty(), 0),
    {
        let utilization = self.shares(&self.capacity);
        Statistics {
            total_profit: 0,
            picked_items: Vec::new(),
            utilization,
            duration: time_since(start),
            runs: 0,
        }
    }

    /// Evaluates the given trials, each on its own and all of them in
    /// parallel, and reports the first of those with the greatest profit, as
    /// the result of as many runs as there are trials.
    pub fn run_trials(&self, trials: Vec<Trial>) -> (stats: Statistics)
        requires
            self.wf(),
            all_permutations(orders_of(trials@), self@.items.len()),
        ensures
            stats@ == self@.batch_outcome(orders_of(trials@)),
            stats.runs == trials.len(),
            forall|i: int|
                0 <= i < trials.len() ==> self@.profit_under(#[trigger] trials[i].order@)
                    <= stats.total_profit,
            self@.feasible(stats.picked_items@),
            self@.shares_sound(stats.utilization@),
            stats.picked_items@.no_duplicates(),
    {
        proof {
            lemma_batch_outcome_is_feasible(self@, orders_of(trials@));
        }
        let start = Instant::now();
        let ghost orders = orders_of(trials@);
        let mut batch = trials;
        if batch.len() == 0 {
            return self.nothing_tried(start);
        }
        evaluate_all(self, &mut batch);
        let mut best: usize = 0;
        let mut i: usize = 1;
        assert(orders.take(1).len() == 1);
        while i < batch.len()
            invariant
                1 <= i <= batch.len(),
                orders.len() == batch.len(),
                best == self@.best(orders.take(i as int)),
                best < i,
                forall|j: int|
                    0 <= j < batch.len() ==> ((#[trigger] batch[j]).result matches Some(found)
                        && found@ == self@.outcome(orders[j], 1)),
            decreases batch.len() - i,
        {
            assert(orders.take(i + 1).drop_last() == orders.take(i as int));
            let challenger = batch[i].result.as_ref().unwrap().total_profit;
            let holder = batch[best].result.as_ref().unwrap().total_profit;
            if challenger > holder {
                best = i;
            }
            i = i + 1;
        }
        assert(orders.take(i as int) == orders);
        proof {
            lemma_best_is_first_maximum(self@, orders);
            assert forall|j: int| 0 <= j < trials.len() implies self@.profit_under(
                #[trigger] trials[j].order@,
            ) <= self@.profit_under(orders[best as int]) by {
                assert(orders[j] == trials[j].order@);
            }
        }
        let runs = batch.len();
        let winner = batch.swap_remove(best);
        let mut stats = winner.result.unwrap();
        stats.duration = time_since(start);
        stats.runs = runs;
        stats
    }

    /// Runs the randomized heuristic with `runs` trials: each trial sweeps over
    /// a random order of its own, and the most profitable trial is reported.
    /// With no trial at all the report is that nothing was taken.
    pub fn run_random(&self, runs: usize) -> (stats: Statistics)
        requires
            self.wf(),
        ensures
            stats.runs == runs,
            runs == 0 ==> stats@ == self@.outcome(Seq::empty(), 0),
            exists|orders: Seq<Seq<usize>>|
                {
                    &&& orders.len() == runs
                    &&& all_permutations(orders, self@.items.len())
                    &&& stats@ == #[trigger] self@.batch_outcome(orders)
                    &&& forall|i: int|
                        0 <= i < orders.len() ==> self@.profit_under(orders[i])
                            <= stats.total_profit
                },
            self@.feasible(stats.picked_items@),
            self@.shares_sound(stats.utilization@),
            stats.picked_items@.no_duplicates(),
    {
        let start = Instant::now();
        let mut trials: Vec<Trial> = Vec::new();
        let mut i: usize = 0;
        while i < runs
            invariant
                self.wf(),
                i <= runs,
                trials.len() == i,
                all_permutations(orders_of(trials@), self@.items.len()),
            decreases runs - i,
        {
            let order = self.draw_order();
            let ghost before = orders_of(trials@);
            trials.push(Trial::new(order));
            assert(orders_of(trials@) == before.push(order@));
            i = i + 1;
        }
        let ghost orders = orders_of(trials@);
        let mut stats = self.run_trials(trials);
        stats.duration = time_since(start);
        assert(stats@ == self@.batch_outcome(orders));
        assert forall|i: int| 0 <= i < orders.len() implies self@.profit_under(orders[i])
            <= stats.total_profit by {
            lemma_batch_reports_the_best(self@, orders, i);
        }
        stats
    }
}

} // verus!
