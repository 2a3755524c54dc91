//! Approximate nearest-neighbour search on hierarchical navigable small-world graphs.
pub mod beam;
pub mod best_first;
pub mod dataset;
pub mod dense;
pub mod egb;
pub mod exhaustive;
pub mod filtered_exhaustive;
pub mod filtering;
pub mod float_order;
pub mod graph;
pub mod hnsw;
pub mod levels;
pub mod local_optimum;
pub mod locality;
pub mod parallel;
pub mod permutation;
pub mod prune;
pub mod random;
pub mod renaming;
pub mod reorder;
pub mod report;
pub mod scored;
pub mod sisap;
pub mod soundness;
pub mod text;
