//! Exact decision trees: a binary classifier grown from a table by
//! recursive partitioning on Gini impurity, with its split search, its
//! majority vote and its prediction.
//!
//! Every quantity is exact. Feature values are whole numbers (fixed point),
//! thresholds are kept doubled so that a midpoint is a whole number, and
//! impurities, confidences and weighted impurities are fractions.

pub mod bignat;
pub mod builder;
pub mod frame;
pub mod impurity;
pub mod labels;
pub mod laws;
pub mod majority;
pub mod names;
pub mod ratio;
pub mod search;
pub mod split;
pub mod table;
pub mod tree;

pub use crate::bignat::{BigNat, Order};
pub use crate::builder::DTreeBuilder;
pub use crate::impurity::{estimate_gini, gini};
pub use crate::labels::{count_groups, value_counts, ClassCount};
pub use crate::majority::{predict_majority, Leaf};
pub use crate::names::comes_before;
pub use crate::ratio::Ratio;
pub use crate::search::{best_split, BestSplit};
pub use crate::split::{
    candidate_cutoffs, evaluate_columns, evaluate_metric, mask_higher, mask_lower, split_metric,
    unique_sorted, Cutoff, InputError, Metric, SplitCandidate,
};
pub use crate::table::{select_rows, Column, Table, Values};
pub use crate::tree::{Field, Node, Row, Rule, Tree};
