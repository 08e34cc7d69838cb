//! Decision-tree classifier grown by greedy recursive partitioning, together
//! with the binary-tree container it is stored in and a graph export of it.

pub mod btree;
pub mod builder;
pub mod impurity;
pub mod order;
pub mod ratio;
pub mod rule;
pub mod split;
pub mod table;
pub mod text;

pub use builder::DTreeBuilder;
pub use impurity::{estimate_gini, predict_majority_dataframe};
pub use ratio::Ratio;
pub use rule::{Decision, Rule};
pub use split::{evaluate_best_split, evaluate_metric, SplitScore};
pub use table::{BuildError, Table};
