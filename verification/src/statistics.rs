//! What one run of a heuristic reports.

use std::time::Duration;
use vstd::prelude::*;
use crate::ratio::Ratio;

verus! {

/// A run's report as contracts see it: everything but the measured time.
#[verifier::ext_equal]
pub struct Outcome {
    /// Sum of the profits of the selected items.
    pub total_profit: nat,
    /// Ids of the selected items, in the order of their selection.
    pub picked_items: Seq<usize>,
    /// For each dimension, the consumed part of its capacity.
    pub utilization: Seq<Ratio>,
    /// Number of independent trials behind the report.
    pub runs: nat,
}

/// The report of one heuristic run.
#[derive(Debug)]
pub struct Statistics {
    /// Sum of the profits of the selected items.
    pub total_profit: u32,
    /// Ids of the selected items, in the order of their selection.
    pub picked_items: Vec<usize>,
    /// For each dimension, the consumed part of its capacity; zero where the
    /// capacity itself is zero.
    pub utilization: Vec<Ratio>,
    /// Wall-clock time that the run took.
    pub duration: Duration,
    /// Number of independent trials behind the report.
    pub runs: usize,
}

impl View for Statistics {
    type V = Outcome;

    open spec fn view(&self) -> Outcome {
        Outcome {
            total_profit: self.total_profit as nat,
            picked_items: self.picked_items@,
            utilization: self.utilization@,
            runs: self.runs as nat,
        }
    }
}

} // verus!
