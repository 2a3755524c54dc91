//! Searches on a line graph over one-dimensional vectors.
use kannolo::dataset::{Dataset, QueryEvaluator};
use kannolo::graph::{GraphTrait, GrowableGraph};
use kannolo::scored::ScoredItem;

/// An integer that is ordered as `distance` is.
fn key(distance: f32) -> i64 {
    let bits = distance.to_bits() as i32;
    (bits ^ (((bits >> 31) as u32) >> 1) as i32) as i64
}

fn unkey(key: i64) -> f32 {
    let bits = key as i32;
    f32::from_bits((bits ^ (((bits >> 31) as u32) >> 1) as i32) as u32)
}

/// Dense vectors under the squared Euclidean distance.
struct DenseF32 {
    values: Vec<f32>,
    dim: usize,
}

struct DenseF32Evaluator<'e> {
    dataset: &'e DenseF32,
    query: &'e [f32],
}

impl DenseF32 {
    fn get(&self, id: usize) -> &[f32] {
        &self.values[id * self.dim..(id + 1) * self.dim]
    }
}

fn squared(a: &[f32], b: &[f32]) -> f32 {
    a.iter().zip(b).map(|(x, y)| (x - y) * (x - y)).sum()
}

impl<'e> QueryEvaluator for DenseF32Evaluator<'e> {
    fn n_known(&self) -> usize {
        self.dataset.len()
    }

    fn distance_to(&self, id: usize) -> i64 {
        self.compute_distance(id)
    }

    fn within_relaxation(distance: i64, worst: i64, lambda: u32) -> bool {
        Self::is_within_relaxation(distance, worst, lambda)
    }

    fn compute_distance(&self, id: usize) -> i64 {
        key(squared(self.query, self.dataset.get(id)))
    }

    fn is_within_relaxation(distance: i64, worst: i64, lambda: u32) -> bool {
        unkey(distance) <= unkey(worst) * (1.0 + f32::from_bits(lambda))
    }
}

impl Dataset for DenseF32 {
    type Query<'q> = &'q [f32];
    type Evaluator<'e> = DenseF32Evaluator<'e>;

    fn n_vectors(&self) -> usize {
        self.len()
    }

    fn fits<'q>(&self, query: &'q [f32]) -> bool {
        query.len() == self.dim
    }

    fn query_distance<'q>(&self, query: &'q [f32], id: usize) -> i64 {
        key(squared(query, self.get(id)))
    }

    fn vector_distance(&self, from: usize, id: usize) -> i64 {
        key(squared(self.get(from), self.get(id)))
    }

    fn pair_distance(&self, a: usize, b: usize) -> i64 {
        key(squared(self.get(a), self.get(b)))
    }

    fn within(distance: i64, worst: i64, lambda: u32) -> bool {
        unkey(distance) <= unkey(worst) * (1.0 + f32::from_bits(lambda))
    }

    fn dimension(&self) -> usize {
        self.dim
    }

    fn space_bytes(&self) -> u128 {
        (self.values.len() * std::mem::size_of::<f32>()) as u128
    }

    fn len(&self) -> usize {
        self.values.len() / self.dim
    }

    fn query_evaluator<'e>(&'e self, query: &'e [f32]) -> DenseF32Evaluator<'e> {
        DenseF32Evaluator { dataset: self, query }
    }

    fn vector_evaluator<'e>(&'e self, from: usize) -> DenseF32Evaluator<'e> {
        DenseF32Evaluator { dataset: self, query: self.get(from) }
    }

    fn compute_distance_between(&self, a: usize, b: usize) -> i64 {
        key(squared(self.get(a), self.get(b)))
    }

    fn input_dim(&self) -> usize {
        self.dim
    }

    fn space_usage_bytes(&self) -> usize {
        self.values.len() * std::mem::size_of::<f32>()
    }
}

/// The vectors [0.0], [1.0], ..., [n - 1].
fn line_dataset(n: usize) -> DenseF32 {
    DenseF32 { values: (0..n).map(|i| i as f32).collect(), dim: 1 }
}

/// A line graph of `n` nodes, each connected to the ones before and after it.
fn build_line_graph(n: usize, max_degree: usize) -> GrowableGraph {
    let mut g = GrowableGraph::with_max_degree(max_degree);
    g.reserve(n);
    g.advance_inserted_nodes(n);
    for i in 0..n {
        let mut nbrs: Vec<usize> = Vec::new();
        if i > 0 {
            nbrs.push(i - 1);
        }
        if i + 1 < n {
            nbrs.push(i + 1);
        }
        g.push_with_precomputed_reverse_links(None, &nbrs, i, &[]);
    }
    g
}

fn entry_at(evaluator: &DenseF32Evaluator, id: usize) -> ScoredItem {
    ScoredItem { distance: evaluator.compute_distance(id), vector: id }
}

/// The candidates for an insertion are bounded by the beam and hold the nearest node.
#[test]
fn search_candidates_for_insert_bounded_by_ef_and_finds_nearest() {
    let n = 20usize;
    let ef = 5usize;
    let dataset = line_dataset(n);
    let graph = build_line_graph(n, 4);
    let query_val = [10.0f32];
    let evaluator = dataset.query_evaluator(&query_val);
    let entry = entry_at(&evaluator, 0);

    let top = graph.search_candidates_for_insert(&evaluator, entry, ef);

    assert!(top.len() <= ef, "heap size {} exceeds ef={}", top.len(), ef);
    let best = top.into_sorted_vec().into_iter().next().unwrap();
    assert_eq!(best.vector, 10, "expected nearest node 10, got {}", best.vector);
    assert_eq!(best.distance, key(0.0));
}

/// The candidates for a query are bounded by the beam and hold the nearest node.
#[test]
fn search_candidates_for_query_bounded_and_correct() {
    let n = 20usize;
    let ef = 6usize;
    let k = 3usize;
    let dataset = line_dataset(n);
    let graph = build_line_graph(n, 4);
    let query_val = [5.0f32];
    let evaluator = dataset.query_evaluator(&query_val);
    let entry = entry_at(&evaluator, 0);

    let top_heap = graph.search_candidates_for_query(&evaluator, entry, ef, k, 0);

    assert!(top_heap.len() <= ef);
    let mut results = top_heap.into_sorted_vec();
    results.truncate(k);
    assert_eq!(results[0].vector, 5, "expected nearest node 5, got {}", results[0].vector);
    assert_eq!(results[0].distance, key(0.0));
}

/// Only even nodes are returned, the nearest of them first.
#[test]
fn acorn_filtered_results_all_pass_predicate() {
    let n = 20usize;
    let k = 5usize;
    let ef = 10usize;
    let dataset = line_dataset(n);
    let graph = build_line_graph(n, 4);
    let query_val = [10.0f32];
    let evaluator = dataset.query_evaluator(&query_val);
    let entry = entry_at(&evaluator, 0);

    let predicate = |id: usize| id % 2 == 0;
    let top_heap =
        graph.acorn_search_candidates_filtered(&evaluator, entry, ef, k, 0, &predicate);

    let results = top_heap.into_sorted_vec();
    assert!(!results.is_empty(), "expected at least one result");
    for result in &results {
        assert_eq!(result.vector % 2, 0, "node {} fails even predicate", result.vector);
    }
    assert_eq!(results[0].vector, 10, "expected nearest even node 10, got {}", results[0].vector);
    assert_eq!(results[0].distance, key(0.0));
}

/// Nodes that pass are found through an entry and a direct neighbour that do not.
#[test]
fn acorn_filtered_entry_not_in_predicate_still_finds_results() {
    let n = 20usize;
    let k = 3usize;
    let ef = 10usize;
    let dataset = line_dataset(n);
    let graph = build_line_graph(n, 4);
    let query_val = [3.0f32];
    let evaluator = dataset.query_evaluator(&query_val);
    let entry = entry_at(&evaluator, 0);

    let predicate = |id: usize| id >= 2;
    let top_heap =
        graph.acorn_search_candidates_filtered(&evaluator, entry, ef, k, 0, &predicate);

    let results = top_heap.into_sorted_vec();
    assert!(
        !results.is_empty(),
        "expected results even when entry and its direct neighbors fail predicate"
    );
    for result in &results {
        assert!(result.vector >= 2, "node {} fails id>=2 predicate", result.vector);
    }
}

/// A predicate that accepts every node changes nothing.
#[test]
fn acorn_filtered_all_pass_matches_unfiltered_nearest() {
    let n = 20usize;
    let ef = 8usize;
    let k = 3usize;
    let dataset = line_dataset(n);
    let graph = build_line_graph(n, 4);
    let query_val = [7.0f32];
    let evaluator = dataset.query_evaluator(&query_val);
    let entry = entry_at(&evaluator, 0);

    let all_pass = |_: usize| true;
    let top_heap = graph.acorn_search_candidates_filtered(&evaluator, entry, ef, k, 0, &all_pass);

    let mut results = top_heap.into_sorted_vec();
    results.truncate(k);
    assert_eq!(results[0].vector, 7, "expected nearest node 7, got {}", results[0].vector);
    assert_eq!(results[0].distance, key(0.0));
}

/// Only even nodes are returned; the others are skipped.
#[test]
fn acorn_gamma_filtered_results_all_pass_predicate() {
    let n = 20usize;
    let k = 5usize;
    let ef = 10usize;
    let dataset = line_dataset(n);
    let graph = build_line_graph(n, 4);
    let query_val = [10.0f32];
    let evaluator = dataset.query_evaluator(&query_val);
    let entry = entry_at(&evaluator, 10);

    let predicate = |id: usize| id % 2 == 0;
    let top_heap = graph.acorn_gamma_search_filtered(&evaluator, entry, ef, k, 0, &predicate);

    let results = top_heap.into_sorted_vec();
    assert!(!results.is_empty(), "expected at least one result");
    for result in &results {
        assert_eq!(result.vector % 2, 0, "node {} fails even predicate", result.vector);
    }
    assert_eq!(results[0].vector, 10, "expected nearest even node 10, got {}", results[0].vector);
    assert_eq!(results[0].distance, key(0.0));
}

/// A predicate that accepts every node changes nothing.
#[test]
fn acorn_gamma_filtered_all_pass_matches_unfiltered_nearest() {
    let n = 20usize;
    let ef = 8usize;
    let k = 3usize;
    let dataset = line_dataset(n);
    let graph = build_line_graph(n, 4);
    let query_val = [7.0f32];
    let evaluator = dataset.query_evaluator(&query_val);
    let entry = entry_at(&evaluator, 7);

    let all_pass = |_: usize| true;
    let top_heap = graph.acorn_gamma_search_filtered(&evaluator, entry, ef, k, 0, &all_pass);

    let mut results = top_heap.into_sorted_vec();
    results.truncate(k);
    assert_eq!(results[0].vector, 7, "expected nearest node 7, got {}", results[0].vector);
    assert_eq!(results[0].distance, key(0.0));
}

/// With room for every passing node, all that passing nodes alone lead to is found.
#[test]
fn filtered_searches_find_what_passing_nodes_lead_to() {
    let n = 20usize;
    let dataset = line_dataset(n);
    let graph = build_line_graph(n, 4);
    let query_val = [10.0f32];
    let evaluator = dataset.query_evaluator(&query_val);
    // The nodes 3 to 12 pass and are linked to one another; so do 16 to 19, beyond a gap.
    let predicate = |id: usize| (3..13).contains(&id) || id >= 16;
    let entry = entry_at(&evaluator, 2);
    let skipping = graph.acorn_gamma_search_filtered(&evaluator, entry, 14, 1, 0, &predicate);
    let mut found: Vec<usize> = skipping.into_sorted_vec().iter().map(|x| x.vector).collect();
    assert_eq!(&found[..3], &[10, 9, 11]);
    found.sort();
    assert_eq!(found, (3..13).collect::<Vec<usize>>());
    let two_hop = graph.acorn_search_candidates_filtered(&evaluator, entry, 14, 1, 0, &predicate);
    let found: Vec<usize> = two_hop.into_sorted_vec().iter().map(|x| x.vector).collect();
    assert!((3..13).all(|id| found.contains(&id)));
    assert!(found.iter().all(|&id| predicate(id)));
}
