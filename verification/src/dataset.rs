//! What a graph index needs to know of the vectors it is built on.
use vstd::prelude::*;

verus! {

/// Distances from one fixed query to the vectors of a dataset.
pub trait QueryEvaluator {
    /// The number of vectors the evaluator can be asked about.
    spec fn n_known(&self) -> usize;

    /// The distance from the query to vector `id`.
    spec fn distance_to(&self, id: usize) -> i64;

    /// Whether `distance` is still good enough next to `worst` under the relaxation `lambda`.
    spec fn within_relaxation(distance: i64, worst: i64, lambda: u32) -> bool;

    /// The distance from the query to vector `id`.
    fn compute_distance(&self, id: usize) -> (distance: i64)
        requires
            id < self.n_known(),
        ensures
            distance == self.distance_to(id),
    ;

    /// Six distances at once, for metrics that gain from scoring several vectors together.
    fn compute_distances_batch6(&self, ids: [usize; 6]) -> (distances: [i64; 6])
        requires
            forall|i: int| 0 <= i < 6 ==> #[trigger] ids@[i] < self.n_known(),
        ensures
            forall|i: int| 0 <= i < 6 ==> #[trigger] distances@[i] == self.distance_to(ids@[i]),
    {
        [
            self.compute_distance(ids[0]),
            self.compute_distance(ids[1]),
            self.compute_distance(ids[2]),
            self.compute_distance(ids[3]),
            self.compute_distance(ids[4]),
            self.compute_distance(ids[5]),
        ]
    }

    /// Whether `distance` is still good enough next to `worst` under the relaxation `lambda`.
    fn is_within_relaxation(distance: i64, worst: i64, lambda: u32) -> (result: bool)
        ensures
            result == Self::within_relaxation(distance, worst, lambda),
    ;
}

/// A collection of vectors with a metric.
pub trait Dataset: Sized {
    /// What the dataset can be searched with.
    type Query<'q>;

    /// Distances from a query or a stored vector to the stored vectors.
    type Evaluator<'e>: QueryEvaluator where Self: 'e;

    /// The number of vectors.
    spec fn n_vectors(&self) -> usize;

    /// The dataset can be searched with `query`.
    spec fn fits<'q>(&self, query: Self::Query<'q>) -> bool;

    /// The distance from `query` to vector `id`.
    spec fn query_distance<'q>(&self, query: Self::Query<'q>, id: usize) -> i64;

    /// The distance from vector `from` to vector `id`, with `from` in the place of a query.
    spec fn vector_distance(&self, from: usize, id: usize) -> i64;

    /// The distance between the vectors `a` and `b`.
    spec fn pair_distance(&self, a: usize, b: usize) -> i64;

    /// Whether `distance` is still good enough next to `worst` under the relaxation `lambda`.
    spec fn within(distance: i64, worst: i64, lambda: u32) -> bool;

    /// The dimension of the vectors.
    spec fn dimension(&self) -> usize;

    /// The bytes that the vectors take.
    spec fn space_bytes(&self) -> u128;

    /// The number of vectors.
    fn len(&self) -> (n: usize)
        ensures
            n == self.n_vectors(),
    ;

    /// The distances from `query`.
    fn query_evaluator<'e>(&'e self, query: Self::Query<'e>) -> (evaluator: Self::Evaluator<'e>)
        requires
            self.fits(query),
        ensures
            evaluator.n_known() == self.n_vectors(),
            forall|id: usize| #[trigger]
                evaluator.distance_to(id) == self.query_distance(query, id),
            forall|distance: i64, worst: i64, lambda: u32| #[trigger]
                <Self::Evaluator<'e> as QueryEvaluator>::within_relaxation(distance, worst, lambda)
                    == Self::within(distance, worst, lambda),
    ;

    /// The distances from vector `from`.
    fn vector_evaluator<'e>(&'e self, from: usize) -> (evaluator: Self::Evaluator<'e>)
        requires
            from < self.n_vectors(),
        ensures
            evaluator.n_known() == self.n_vectors(),
            forall|id: usize| #[trigger]
                evaluator.distance_to(id) == self.vector_distance(from, id),
            forall|distance: i64, worst: i64, lambda: u32| #[trigger]
                <Self::Evaluator<'e> as QueryEvaluator>::within_relaxation(distance, worst, lambda)
                    == Self::within(distance, worst, lambda),
    ;

    /// The distance between the vectors `a` and `b`.
    fn compute_distance_between(&self, a: usize, b: usize) -> (distance: i64)
        requires
            a < self.n_vectors(),
            b < self.n_vectors(),
        ensures
            distance == self.pair_distance(a, b),
    ;

    /// The dimension of the vectors.
    fn input_dim(&self) -> (dim: usize)
        ensures
            dim == self.dimension(),
    ;

    /// The bytes that the vectors take.
    fn space_usage_bytes(&self) -> (bytes: usize)
        requires
            self.space_bytes() <= usize::MAX,
        ensures
            bytes == self.space_bytes(),
    ;
}

} // verus!
