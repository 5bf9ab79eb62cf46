//! The knapsack: an instance of the problem, and the heuristics that fill it.

use vstd::prelude::*;
use crate::format::counts_match;
use crate::format::instance_of;
use crate::format::parse_rows;
use crate::format::read_rows;
use crate::format::read_text;
use crate::format::row_views;
use crate::format::MalformedInstance;
use crate::instance::Instance;
use crate::item::Item;

verus! {

/// An instance of the multidimensional knapsack problem. It is built once,
/// from its text, and only read afterwards: every run of a heuristic works on
/// a copy of the capacities that it owns.
#[derive(Debug, Clone)]
pub struct Knapsack {
    pub(crate) m: usize,
    pub(crate) n: usize,
    pub(crate) items: Vec<Item>,
    pub(crate) capacity: Vec<u16>,
}

impl View for Knapsack {
    type V = Instance;

    open(crate) spec fn view(&self) -> Instance {
        Instance {
            items: Seq::new(self.items.len() as nat, |i: int| self.items[i]@),
            capacity: self.capacity@,
        }
    }
}

impl Knapsack {
    /// The counts agree with the vectors and every item carries its ranking key.
    pub open(crate) spec fn consistent(&self) -> bool {
        &&& self.n == self.items.len()
        &&& self.m == self.capacity.len()
        &&& forall|i: int| 0 <= i < self.items.len() ==> (#[trigger] self.items[i]).wf()
    }

    /// What every knapsack that this library builds satisfies.
    pub open spec fn wf(&self) -> bool {
        self@.valid() && self.consistent()
    }

    /// The number of items.
    pub fn item_count(&self) -> (n: usize)
        requires
            self.wf(),
        ensures
            n == self@.items.len(),
    {
        self.n
    }

    /// The number of dimensions.
    pub fn dimension_count(&self) -> (m: usize)
        requires
            self.wf(),
        ensures
            m == self@.capacity.len(),
    {
        self.m
    }

    /// The items, in input order.
    pub fn items(&self) -> (items: &Vec<Item>)
        requires
            self.wf(),
        ensures
            items.len() == self@.items.len(),
            forall|i: int|
                0 <= i < items.len() ==> (#[trigger] items[i]).wf() && items[i]@ == self@.items[i],
    {
        &self.items
    }

    /// The capacity of each dimension.
    pub fn capacity(&self) -> (capacity: &Vec<u16>)
        ensures
            capacity@ == self@.capacity,
    {
        &self.capacity
    }

    /// Builds the instance that rows of numbers describe, the header first.
    pub fn from_rows(rows: &Vec<Vec<u16>>) -> (out: Result<Knapsack, MalformedInstance>)
        ensures
            match read_rows(row_views(rows@)) {
                Ok(instance) => out matches Ok(knapsack) && knapsack.wf() && knapsack@ == instance,
                Err(problem) => out matches Err(found) && found == problem,
            },
    {
        let ghost found = row_views(rows@);
        if rows.len() == 0 || rows[0].len() != 4 {
            return Err(MalformedInstance::WrongTokenCount);
        }
        let n: usize = rows[0][0] as usize;
        let m: usize = rows[0][1] as usize;
        if n == 0 || m == 0 {
            return Err(MalformedInstance::Empty);
        }
        if rows.len() != m + 3 {
            return Err(MalformedInstance::LengthMismatch);
        }
        let mut r: usize = 1;
        while r < m + 2
            invariant
                1 <= r <= m + 2,
                rows.len() == m + 3,
                found == row_views(rows@),
                found[0].len() == 4,
                1 <= n == found[0][0],
                1 <= m == found[0][1],
                forall|j: int| 1 <= j < r ==> (#[trigger] found[j]).len() == n,
            decreases m + 2 - r,
        {
            if rows[r].len() != n {
                assert(found[r as int].len() != n);
                return Err(MalformedInstance::WrongTokenCount);
            }
            r = r + 1;
        }
        if rows[m + 2].len() != m {
            return Err(MalformedInstance::WrongTokenCount);
        }
        assert(counts_match(found));
        let ghost instance = instance_of(found);
        let mut items: Vec<Item> = Vec::new();
        let mut i: usize = 0;
        while i < n
            invariant
                i <= n <= u16::MAX,
                1 <= m <= u16::MAX,
                rows.len() == m + 3,
                found == row_views(rows@),
                instance == instance_of(found),
                found[0].len() == 4,
                n == found[0][0],
                m == found[0][1],
                counts_match(found),
                items.len() == i,
                forall|j: int|
                    0 <= j < i ==> (#[trigger] items[j]).wf() && items[j]@ == instance.items[j],
            decreases n - i,
        {
            let mut weights: Vec<u16> = Vec::new();
            let mut d: usize = 0;
            while d < m
                invariant
                    d <= m <= u16::MAX,
                    i < n,
                    rows.len() == m + 3,
                    found == row_views(rows@),
                    found[0].len() == 4,
                    n == found[0][0],
                    m == found[0][1],
                    counts_match(found),
                    weights.len() == d,
                    forall|e: int| 0 <= e < d ==> weights[e] == found[2 + e][i as int],
                decreases m - d,
            {
                assert(found[2 + d].len() == n);
                weights.push(rows[2 + d][i]);
                d = d + 1;
            }
            assert(found[1].len() == n);
            assert(weights@ == instance.items[i as int].weights);
            items.push(Item::new(i + 1, rows[1][i], weights));
            i = i + 1;
        }
        let mut capacity: Vec<u16> = Vec::new();
        let mut d: usize = 0;
        while d < m
            invariant
                d <= m,
                rows.len() == m + 3,
                rows[m + 2].len() == m,
                capacity.len() == d,
                forall|e: int| 0 <= e < d ==> capacity[e] == rows[m + 2][e],
            decreases m - d,
        {
            capacity.push(rows[m + 2][d]);
            d = d + 1;
        }
        assert(capacity@ == instance.capacity);
        let knapsack = Knapsack { m, n, items, capacity };
        assert(knapsack@ == instance);
        Ok(knapsack)
    }

    /// Builds the instance that a text describes.
    pub fn from(text: &[u8]) -> (out: Result<Knapsack, MalformedInstance>)
        ensures
            match read_text(text@) {
                Ok(instance) => out matches Ok(knapsack) && knapsack.wf() && knapsack@ == instance,
                Err(problem) => out matches Err(found) && found == problem,
            },
    {
        match parse_rows(text) {
            None => Err(MalformedInstance::NonNumericToken),
            Some(rows) => Knapsack::from_rows(&rows),
        }
    }
}

} // verus!
