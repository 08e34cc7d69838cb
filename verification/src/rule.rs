//! What a node of a decision tree holds.

use vstd::prelude::*;
use crate::ratio::Ratio;

verus! {

/// A split of a partition in two.
#[derive(Debug, Clone, Copy, PartialEq, Eq)]
pub struct Rule {
    /// The feature column that the rows are told apart by.
    pub dimension: usize,
    /// Twice the threshold: a row goes to the high side iff twice its
    /// value of the feature is at least this.
    pub cutoff: i128,
    /// The weighted impurity of the two sides.
    pub metric: Ratio,
}

/// The payload of a tree node: a leaf iff it has no rule.
#[derive(Debug, Clone, Copy, PartialEq, Eq)]
pub struct Decision {
    pub rule: Option<Rule>,
    /// The share of the majority class among the rows of the node.
    pub confidence: Ratio,
    /// The majority class.
    pub prediction: u32,
}

} // verus!
