//! Items: what can be put into the knapsack.

use vstd::prelude::*;
use crate::ratio::Ratio;

verus! {

/// The sum of the given weights.
pub open spec fn total(weights: Seq<u16>) -> nat
    decreases weights.len(),
{
    if weights.len() == 0 {
        0
    } else {
        total(weights.drop_last()) + weights.last() as nat
    }
}

/// An item as contracts see it.
pub struct ItemModel {
    /// Position in the input, counted from 1.
    pub id: usize,
    /// What the item is worth when it is selected.
    pub profit: u16,
    /// What the item consumes, one weight per dimension.
    pub weights: Seq<u16>,
}

impl ItemModel {
    /// Whether `self` ranks strictly before `other`: both consume something,
    /// and `self` yields more profit per unit of total weight. An item of
    /// total weight zero neither outranks another nor is outranked.
    pub open spec fn outranks(self, other: ItemModel) -> bool {
        &&& total(self.weights) > 0
        &&& total(other.weights) > 0
        &&& self.profit * total(other.weights) > other.profit * total(self.weights)
    }
}

/// One item of an instance. An item is never changed once it is built; the
/// heuristics read it and record their decisions elsewhere.
#[derive(Debug, Clone)]
pub struct Item {
    /// Position in the input, counted from 1.
    pub id: usize,
    /// What the item is worth when it is selected.
    pub profit: u16,
    /// What the item consumes, one weight per dimension.
    pub weights: Vec<u16>,
    /// Profit per unit of total weight, the key by which items are ranked.
    pub weighted_profit: Ratio,
}

impl View for Item {
    type V = ItemModel;

    open spec fn view(&self) -> ItemModel {
        ItemModel { id: self.id, profit: self.profit, weights: self.weights@ }
    }
}

impl Item {
    /// The ranking key is the profit over the total weight.
    pub open spec fn wf(&self) -> bool {
        &&& self.weighted_profit.numerator == self.profit
        &&& self.weighted_profit.denominator == total(self.weights@)
    }

    /// Builds the item and derives its ranking key.
    pub(crate) fn new(id: usize, profit: u16, weights: Vec<u16>) -> (item: Item)
        requires
            weights.len() <= u16::MAX,
        ensures
            item.wf(),
            item@ == (ItemModel { id, profit, weights: weights@ }),
    {
        let mut sum: u32 = 0;
        let mut d: usize = 0;
        while d < weights.len()
            invariant
                d <= weights.len() <= u16::MAX,
                sum == total(weights@.take(d as int)),
                sum <= d * u16::MAX,
            decreases weights.len() - d,
        {
            assert(weights@.take(d + 1).drop_last() == weights@.take(d as int));
            sum = sum + weights[d] as u32;
            d = d + 1;
        }
        assert(weights@.take(d as int) == weights@);
        Item {
            id,
            profit,
            weights,
            weighted_profit: Ratio { numerator: profit as u32, denominator: sum },
        }
    }

    /// Whether this item ranks strictly before `other`.
    pub fn outranks(&self, other: &Item) -> (before: bool)
        requires
            self.wf(),
            other.wf(),
        ensures
            before == self@.outranks(other@),
    {
        self.weighted_profit.exceeds(&other.weighted_profit)
    }
}

} // verus!
