//! Functional ANOVA importance decomposition for forests of axis-aligned
//! decision trees, computed in exact rational arithmetic.
//!
//! Given a fitted forest (trees of splits and leaves, plus the per-feature
//! domain bounds it was trained on), the library reconstructs each tree's
//! leaf partition of the domain, marginalizes the tree's piecewise-constant
//! prediction function onto requested feature subsets, and returns, per
//! subset, the fraction of total prediction variance attributable to that
//! subset, averaged over the forest's non-constant trees.

mod importance;
mod laws;
mod marginal;
mod model;
mod partition;
mod rat;

pub use importance::{quantify_importances, tree_variance};
pub use laws::{
    lemma_clamp01_bounds, lemma_decomposition_idempotent, lemma_empty_subset_fraction_zero,
    lemma_empty_subset_importance_zero,
};
pub use marginal::{check_partition_shape, marginal_raw_variance};
pub use model::{check_domain, check_forest, check_tree, Error, Forest, Interval, Node, Tree};
pub use partition::{box_volume, build_partition, PartitionEntry};
pub use rat::Rat;
