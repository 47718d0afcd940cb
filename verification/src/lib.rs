//! Information-content scoring for cohorts annotated with hierarchical
//! ontology terms, and semantic similarity derived from it.
//!
//! The crate aggregates per-subject observations of ontology terms along a
//! DAG (ancestor-propagation for present observations, descendant-propagation
//! for excluded ones), normalizes the counts into per-term information
//! content, and precomputes a pairwise similarity table based on the most
//! informative common ancestor of each pair.

pub mod compute;
pub mod counts;
pub mod feature;
pub mod hierarchy;
pub mod ic;
pub mod item;
pub mod semsim;
pub mod seqs;
