//! Symbol weights for the Knuth-Bendix ordering.
use vstd::prelude::*;

verus! {

/// A weight function on the function and predicate symbols: every symbol
/// weighs the same.
#[derive(Debug, Clone, Copy, PartialEq, Eq)]
pub struct Weight {
    pub symbol: u64,
}

impl Weight {
    /// The weight function that gives every symbol the weight `symbol`.
    pub fn new(symbol: u64) -> (w: Weight)
        ensures
            w.symbol == symbol,
    {
        Weight { symbol }
    }
}

} // verus!
