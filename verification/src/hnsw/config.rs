//! How an index is built and searched.
use vstd::prelude::*;

verus! {

/// Configuration for building an index.
///
/// Use the builder pattern:
/// `HNSWBuildConfiguration::default().with_num_neighbors(32).with_ef_construction(200)`.
pub struct HNSWBuildConfiguration {
    /// The number of neighbours of a node on each upper level, known as `M`.
    pub num_neighbors_per_vec: usize,
    /// The size of the candidate list while the graph is built, known as `efConstruction`.
    pub ef_construction: usize,
    /// The number of nodes that are first processed in parallel.
    pub initial_build_batch_size: usize,
    /// The largest number of nodes that are processed in parallel.
    pub max_build_batch_size: usize,
}

impl HNSWBuildConfiguration {
    /// Sets the number of neighbours per vector.
    #[must_use]
    pub fn with_num_neighbors(self, num_neighbors_per_vec: usize) -> (config: Self)
        ensures
            config == (HNSWBuildConfiguration { num_neighbors_per_vec, ..self }),
    {
        HNSWBuildConfiguration { num_neighbors_per_vec, ..self }
    }

    /// Sets the size of the candidate list.
    #[must_use]
    pub fn with_ef_construction(self, ef_construction: usize) -> (config: Self)
        ensures
            config == (HNSWBuildConfiguration { ef_construction, ..self }),
    {
        HNSWBuildConfiguration { ef_construction, ..self }
    }

    /// Sets the first batch size.
    #[must_use]
    pub fn with_initial_batch_size(self, initial_build_batch_size: usize) -> (config: Self)
        ensures
            config == (HNSWBuildConfiguration { initial_build_batch_size, ..self }),
    {
        HNSWBuildConfiguration { initial_build_batch_size, ..self }
    }

    /// Sets the largest batch size.
    #[must_use]
    pub fn with_max_batch_size(self, max_build_batch_size: usize) -> (config: Self)
        ensures
            config == (HNSWBuildConfiguration { max_build_batch_size, ..self }),
    {
        HNSWBuildConfiguration { max_build_batch_size, ..self }
    }
}

impl Default for HNSWBuildConfiguration {
    /// Reasonable values to start from.
    fn default() -> (config: Self)
        ensures
            config == (HNSWBuildConfiguration {
                num_neighbors_per_vec: 16,
                ef_construction: 150,
                initial_build_batch_size: 4,
                max_build_batch_size: 320,
            }),
    {
        HNSWBuildConfiguration {
            num_neighbors_per_vec: 16,
            ef_construction: 150,
            initial_build_batch_size: 4,
            max_build_batch_size: 320,
        }
    }
}

/// When a search stops before its frontier is exhausted.
#[derive(Debug, Clone, Copy)]
pub enum EarlyTerminationStrategy {
    /// As soon as the nearest frontier item is farther than the worst item found.
    Standard,
    /// As soon as the nearest frontier item falls outside the threshold around the worst item
    /// found that `lambda` relaxes.
    DistanceAdaptive {
        /// The relaxation, in the unit of the dataset; 0 is the same as `Standard`.
        lambda: u32,
    },
}

impl Default for EarlyTerminationStrategy {
    fn default() -> (strategy: Self)
        ensures
            strategy is Standard,
    {
        EarlyTerminationStrategy::Standard
    }
}

impl EarlyTerminationStrategy {
    pub open spec fn relaxation(self) -> u32 {
        match self {
            EarlyTerminationStrategy::Standard => 0,
            EarlyTerminationStrategy::DistanceAdaptive { lambda } => lambda,
        }
    }

    /// The relaxation parameter; 0 for `Standard`.
    pub fn lambda(&self) -> (lambda: u32)
        ensures
            lambda == self.relaxation(),
            *self is Standard ==> lambda == 0,
            forall|given: u32|
                *self == (EarlyTerminationStrategy::DistanceAdaptive { lambda: given }) ==> lambda
                    == given,
    {
        match self {
            EarlyTerminationStrategy::Standard => 0,
            EarlyTerminationStrategy::DistanceAdaptive { lambda } => *lambda,
        }
    }
}

/// Configuration for searching an index.
///
/// Use the builder pattern: `HNSWSearchConfiguration::default().with_ef_search(200)`.
pub struct HNSWSearchConfiguration {
    /// The size of the candidate list of a search, known as `efSearch`. A larger value leads to
    /// more accurate results at the cost of speed.
    pub ef_search: usize,
    /// When a search stops early.
    pub early_termination: EarlyTerminationStrategy,
}

impl HNSWSearchConfiguration {
    /// Sets the size of the candidate list.
    #[must_use]
    pub fn with_ef_search(self, ef_search: usize) -> (config: Self)
        ensures
            config == (HNSWSearchConfiguration { ef_search, ..self }),
    {
        HNSWSearchConfiguration { ef_search, ..self }
    }

    /// Sets when a search stops early.
    #[must_use]
    pub fn with_early_termination(self, strategy: EarlyTerminationStrategy) -> (config: Self)
        ensures
            config == (HNSWSearchConfiguration { early_termination: strategy, ..self }),
    {
        HNSWSearchConfiguration { early_termination: strategy, ..self }
    }
}

impl Default for HNSWSearchConfiguration {
    fn default() -> (config: Self)
        ensures
            config == (HNSWSearchConfiguration {
                ef_search: 100,
                early_termination: EarlyTerminationStrategy::Standard,
            }),
    {
        HNSWSearchConfiguration {
            ef_search: 100,
            early_termination: EarlyTerminationStrategy::Standard,
        }
    }
}

} // verus!
