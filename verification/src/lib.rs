//! Construction heuristics for the multidimensional knapsack problem: pick
//! items, each with a profit and one weight per resource dimension, so that
//! the profit is high and no dimension's capacity is exceeded.

pub mod clock;
pub mod format;
pub mod greedy;
pub mod instance;
pub mod item;
pub mod knapsack;
pub mod laws;
pub mod random;
pub mod ratio;
pub mod statistics;
pub mod sweep;

pub use crate::format::MalformedInstance;
pub use crate::item::Item;
pub use crate::knapsack::Knapsack;
pub use crate::random::Trial;
pub use crate::ratio::Ratio;
pub use crate::statistics::Statistics;
