//! Indexes over one-dimensional vectors.
use kannolo::dataset::{Dataset, QueryEvaluator};
use kannolo::graph::{Graph, GraphFixedDegree, GraphTrait, GrowableGraph};
use kannolo::hnsw::{
    EarlyTerminationStrategy, HNSWBuildConfiguration, HNSWSearchConfiguration, HNSW,
};
use kannolo::random::{level_rng, shuffled_ids};
use kannolo::scored::ScoredItem;
use rand::Rng;

/// An integer that is ordered as `distance` is.
fn key(distance: f32) -> i64 {
    let bits = distance.to_bits() as i32;
    (bits ^ (((bits >> 31) as u32) >> 1) as i32) as i64
}

fn unkey(key: i64) -> f32 {
    let bits = key as i32;
    f32::from_bits((bits ^ (((bits >> 31) as u32) >> 1) as i32) as u32)
}

/// Dense vectors under the squared Euclidean distance.
struct DenseF32 {
    values: Vec<f32>,
    dim: usize,
}

struct DenseF32Evaluator<'e> {
    dataset: &'e DenseF32,
    query: &'e [f32],
}

impl DenseF32 {
    fn get(&self, id: usize) -> &[f32] {
        &self.values[id * self.dim..(id + 1) * self.dim]
    }
}

fn squared(a: &[f32], b: &[f32]) -> f32 {
    a.iter().zip(b).map(|(x, y)| (x - y) * (x - y)).sum()
}

impl<'e> QueryEvaluator for DenseF32Evaluator<'e> {
    fn n_known(&self) -> usize {
        self.dataset.len()
    }

    fn distance_to(&self, id: usize) -> i64 {
        self.compute_distance(id)
    }

    fn within_relaxation(distance: i64, worst: i64, lambda: u32) -> bool {
        Self::is_within_relaxation(distance, worst, lambda)
    }

    fn compute_distance(&self, id: usize) -> i64 {
        key(squared(self.query, self.dataset.get(id)))
    }

    fn is_within_relaxation(distance: i64, worst: i64, lambda: u32) -> bool {
        unkey(distance) <= unkey(worst) * (1.0 + f32::from_bits(lambda))
    }
}

impl Dataset for DenseF32 {
    type Query<'q> = &'q [f32];
    type Evaluator<'e> = DenseF32Evaluator<'e>;

    fn n_vectors(&self) -> usize {
        self.len()
    }

    fn fits<'q>(&self, query: &'q [f32]) -> bool {
        query.len() == self.dim
    }

    fn query_distance<'q>(&self, query: &'q [f32], id: usize) -> i64 {
        key(squared(query, self.get(id)))
    }

    fn vector_distance(&self, from: usize, id: usize) -> i64 {
        key(squared(self.get(from), self.get(id)))
    }

    fn pair_distance(&self, a: usize, b: usize) -> i64 {
        key(squared(self.get(a), self.get(b)))
    }

    fn within(distance: i64, worst: i64, lambda: u32) -> bool {
        unkey(distance) <= unkey(worst) * (1.0 + f32::from_bits(lambda))
    }

    fn dimension(&self) -> usize {
        self.dim
    }

    fn space_bytes(&self) -> u128 {
        (self.values.len() * std::mem::size_of::<f32>()) as u128
    }

    fn len(&self) -> usize {
        self.values.len() / self.dim
    }

    fn query_evaluator<'e>(&'e self, query: &'e [f32]) -> DenseF32Evaluator<'e> {
        DenseF32Evaluator { dataset: self, query }
    }

    fn vector_evaluator<'e>(&'e self, from: usize) -> DenseF32Evaluator<'e> {
        DenseF32Evaluator { dataset: self, query: self.get(from) }
    }

    fn compute_distance_between(&self, a: usize, b: usize) -> i64 {
        key(squared(self.get(a), self.get(b)))
    }

    fn input_dim(&self) -> usize {
        self.dim
    }

    fn space_usage_bytes(&self) -> usize {
        self.values.len() * std::mem::size_of::<f32>()
    }
}

/// The share of the nodes that each level gets.
fn level_probabilities(level_mult: f32, dataset_len: f32) -> Vec<f32> {
    let mut shares = Vec::new();
    let mut level = 0;
    loop {
        let share = (-level as f32 / level_mult).exp() * (1.0 - (-1.0 / level_mult).exp());
        if share < 1.0 / dataset_len {
            return shares;
        }
        shares.push(share);
        level += 1;
    }
}

/// The ids in random order and the level drawn for each.
fn draw_levels(n: usize, m: usize) -> (Vec<usize>, Vec<u8>) {
    let shares = level_probabilities(1.0 / (m as f32).ln(), n as f32);
    let mut rng = level_rng();
    let ids = shuffled_ids(n, &mut rng);
    let mut drawn = Vec::new();
    for _ in 0..n {
        let mut f: f32 = rng.gen_range(0.0..1.0);
        let mut level = (shares.len() - 1) as u8;
        for (l, &share) in shares.iter().enumerate() {
            if f < share {
                level = l as u8;
                break;
            }
            f -= share;
        }
        drawn.push(level);
    }
    (ids, drawn)
}

fn build<D: Dataset + Sync>(dataset: D, config: &HNSWBuildConfiguration) -> HNSW<D, Graph> {
    let (ids, drawn) = draw_levels(dataset.len(), config.num_neighbors_per_vec);
    HNSW::build_index(dataset, config, &ids, &drawn)
}

/// The vectors [0.0], [1.0], ..., [n - 1].
fn line_dataset(n: usize) -> DenseF32 {
    DenseF32 { values: (0..n).map(|i| i as f32).collect(), dim: 1 }
}

/// A small index over the vectors [0.0], [1.0], ..., [n - 1].
fn build_1d_hnsw(n: usize) -> HNSW<DenseF32, Graph> {
    let config = HNSWBuildConfiguration::default().with_num_neighbors(8).with_ef_construction(50);
    build(line_dataset(n), &config)
}

/// Every result of `search_filtered` must pass the predicate.
#[test]
fn search_filtered_all_results_pass_predicate() {
    let hnsw = build_1d_hnsw(100);
    let search_config = HNSWSearchConfiguration::default().with_ef_search(50);
    let query_val = [50.0f32];

    let results = hnsw.search_filtered(&query_val, 10, &search_config, |id| id % 2 == 0);

    assert!(!results.is_empty());
    for r in &results {
        assert_eq!(r.vector % 2, 0, "result {} does not pass even predicate", r.vector);
    }
}

/// The nearest vector that satisfies the predicate comes first.
#[test]
fn search_filtered_finds_nearest_predicate_passing_neighbors() {
    let hnsw = build_1d_hnsw(100);
    let search_config = HNSWSearchConfiguration::default().with_ef_search(100);
    let query_val = [50.5f32];

    let results = hnsw.search_filtered(&query_val, 5, &search_config, |id| id % 3 == 0);

    assert!(!results.is_empty());
    for r in &results {
        assert_eq!(r.vector % 3, 0, "result {} is not divisible by 3", r.vector);
    }
    assert_eq!(
        results[0].vector, 51,
        "expected nearest filtered result 51, got {}",
        results[0].vector
    );
}

/// A predicate that accepts every vector gives the results of the unfiltered search.
#[test]
fn search_filtered_full_predicate_matches_unfiltered_nearest() {
    let hnsw = build_1d_hnsw(100);
    let search_config = HNSWSearchConfiguration::default().with_ef_search(50);
    let k = 5;
    let query_val = [30.0f32];

    let filtered = hnsw.search_filtered(&query_val, k, &search_config, |_| true);
    let plain = hnsw.search(&query_val, k, &search_config);

    assert_eq!(filtered.len(), plain.len());
    assert_eq!(
        filtered[0].vector, plain[0].vector,
        "nearest neighbor mismatch: filtered={}, plain={}",
        filtered[0].vector, plain[0].vector
    );
    assert_eq!(filtered, plain);
}

/// If only one vector near the query passes, it is returned alone.
#[test]
fn search_filtered_single_eligible_vector() {
    let hnsw = build_1d_hnsw(50);
    let search_config = HNSWSearchConfiguration::default().with_ef_search(50);
    let query_val = [42.0f32];

    let results = hnsw.search_filtered(&query_val, 5, &search_config, |id| id == 42);

    assert_eq!(results.len(), 1, "expected exactly 1 result, got {}", results.len());
    assert_eq!(results[0].vector, 42);
}

/// If no vector passes, nothing is returned.
#[test]
fn search_filtered_no_eligible_vectors_returns_empty() {
    let hnsw = build_1d_hnsw(50);
    let search_config = HNSWSearchConfiguration::default().with_ef_search(50);
    let query_val = [25.0f32];

    let results = hnsw.search_filtered(&query_val, 5, &search_config, |_| false);
    assert!(results.is_empty(), "expected empty results when predicate always returns false");
}

/// The expanded lists are at least as long as those of the ground level.
#[test]
fn build_acorn_gamma_neighbors_expands_neighbor_lists() {
    let hnsw = build_1d_hnsw(50);
    let acorn_gamma = hnsw.build_acorn_gamma_neighbors(2);

    let n = 50usize;
    assert_eq!(acorn_gamma.n_nodes(), n);

    let parts = hnsw.into_parts();
    let ground = &parts.levels[parts.levels.len() - 1];
    for v in 0..n {
        let orig_deg = ground.neighbors(v).len();
        let expanded_deg = acorn_gamma.neighbors(v).len();
        assert!(expanded_deg >= orig_deg, "node {v}: expanded {expanded_deg} < original {orig_deg}");
    }
}

/// Every result of `search_filtered_gamma` must pass the predicate.
#[test]
fn search_filtered_gamma_all_results_pass_predicate() {
    let hnsw = build_1d_hnsw(100);
    let search_config = HNSWSearchConfiguration::default().with_ef_search(50);
    let acorn_gamma = hnsw.build_acorn_gamma_neighbors(4);
    let query_val = [50.0f32];

    let results =
        hnsw.search_filtered_gamma(&query_val, 10, &search_config, &acorn_gamma, |id| id % 2 == 0);

    assert!(!results.is_empty());
    for r in &results {
        assert_eq!(r.vector % 2, 0, "node {} fails even predicate", r.vector);
    }
}

/// A predicate that accepts every vector finds the true nearest one.
#[test]
fn search_filtered_gamma_full_predicate_finds_nearest() {
    let hnsw = build_1d_hnsw(100);
    let search_config = HNSWSearchConfiguration::default().with_ef_search(50);
    let acorn_gamma = hnsw.build_acorn_gamma_neighbors(4);
    let query_val = [37.0f32];

    let results = hnsw.search_filtered_gamma(&query_val, 1, &search_config, &acorn_gamma, |_| true);

    assert_eq!(results.len(), 1);
    assert_eq!(results[0].vector, 37, "nearest to 37.0 should be node 37");
}

/// If no vector passes, nothing is returned.
#[test]
fn search_filtered_gamma_no_eligible_vectors_returns_empty() {
    let hnsw = build_1d_hnsw(50);
    let search_config = HNSWSearchConfiguration::default().with_ef_search(50);
    let acorn_gamma = hnsw.build_acorn_gamma_neighbors(2);
    let query_val = [25.0f32];

    let results =
        hnsw.search_filtered_gamma(&query_val, 5, &search_config, &acorn_gamma, |_| false);
    assert!(results.is_empty());
}

/// A beam with room for every node finds the exact neighbours, nearest first.
#[test]
fn a_wide_beam_is_exact() {
    let hnsw = build_1d_hnsw(60);
    let config = HNSWSearchConfiguration::default().with_ef_search(60);
    let query_val = [20.3f32];
    let results = hnsw.search(&query_val, 5, &config);
    let found: Vec<usize> = results.iter().map(|r| r.vector).collect();
    assert_eq!(found, vec![20, 21, 19, 22, 18]);
    assert_eq!(results[1].distance, key((21.0f32 - 20.3) * (21.0 - 20.3)));
    for pair in results.windows(2) {
        assert!(pair[0].distance <= pair[1].distance);
    }
}

/// The levels are nested, and the ground level has every vector.
#[test]
fn levels_of_a_built_index_are_nested() {
    let hnsw = build_1d_hnsw(100);
    let counts = hnsw.nodes_per_level();
    assert_eq!(counts.len(), hnsw.max_level() + 1);
    assert_eq!(counts[counts.len() - 1], 100);
    assert!(counts.windows(2).all(|w| w[0] <= w[1]));
    assert!(counts.len() > 1);
    let parts = hnsw.into_parts();
    assert_eq!(parts.entry_point, 0);
    for i in 0..parts.levels.len() - 2 {
        for id in 0..parts.levels[i].n_nodes() {
            assert_eq!(
                parts.levels[i].get_external_id(id),
                parts.levels[i + 1].get_external_id(id)
            );
        }
    }
    assert_eq!(parts.levels[0].max_degree(), 8);
    assert_eq!(parts.levels[parts.levels.len() - 1].max_degree(), 16);
}

/// Levels with many vectors are built in parallel batches, with the same guarantees.
#[test]
fn parallel_batches_build_a_searchable_index() {
    let config = HNSWBuildConfiguration::default()
        .with_num_neighbors(8)
        .with_ef_construction(40)
        .with_initial_batch_size(3)
        .with_max_batch_size(20);
    let n = 400;
    let hnsw = build(line_dataset(n), &config);
    let search_config = HNSWSearchConfiguration::default().with_ef_search(n);
    for target in [0usize, 57, 199, 399] {
        let query_val = [target as f32];
        let results = hnsw.search(&query_val, 1, &search_config);
        assert_eq!(results[0].vector, target);
        assert_eq!(results[0].distance, key(0.0));
    }
}

/// The batches are independent of how the threads are scheduled.
#[test]
fn building_twice_gives_the_same_index() {
    let config = HNSWBuildConfiguration::default()
        .with_num_neighbors(4)
        .with_ef_construction(20)
        .with_max_batch_size(10);
    let first = build(line_dataset(120), &config).into_parts();
    let second = build(line_dataset(120), &config).into_parts();
    assert_eq!(first.levels.len(), second.levels.len());
    for (a, b) in first.levels.iter().zip(&second.levels) {
        assert_eq!(a.n_nodes(), b.n_nodes());
        for v in 0..a.n_nodes() {
            assert_eq!(a.neighbors(v), b.neighbors(v));
        }
    }
}

/// An index of one vector.
#[test]
fn a_single_vector_is_found() {
    let config = HNSWBuildConfiguration::default();
    let hnsw: HNSW<DenseF32, Graph> = HNSW::build_index(line_dataset(1), &config, &[0], &[0]);
    assert_eq!(hnsw.n_elements(), 1);
    assert_eq!(hnsw.dim(), 1);
    assert_eq!(hnsw.max_level(), 0);
    let query_val = [3.0f32];
    let results = hnsw.search(&query_val, 2, &HNSWSearchConfiguration::default());
    assert_eq!(results.len(), 1);
    assert_eq!(results[0].vector, 0);
    assert_eq!(results[0].distance, key(9.0));
}

/// Two vectors: the links, the levels and the entry point are determined.
#[test]
fn a_pair_of_vectors_is_linked_both_ways() {
    let config = HNSWBuildConfiguration::default().with_num_neighbors(2).with_ef_construction(4);
    let hnsw: HNSW<DenseF32, Graph> =
        HNSW::build_index(line_dataset(2), &config, &[1, 0], &[0, 1]);
    assert_eq!(hnsw.nodes_per_level(), vec![1, 2]);
    let parts = hnsw.into_parts();
    assert_eq!(parts.level1_to_level0_mapping, vec![0]);
    assert_eq!(parts.levels[0].get_external_id(0), 0);
    assert!(parts.levels[0].neighbors(0).is_empty());
    assert_eq!(parts.levels[1].neighbors(0), vec![1]);
    assert_eq!(parts.levels[1].neighbors(1), vec![0]);
}

/// The graphs of an index can be stored in any way.
#[test]
fn every_graph_storage_gives_the_same_results() {
    let config = HNSWBuildConfiguration::default().with_num_neighbors(6).with_ef_construction(30);
    let (ids, drawn) = draw_levels(80, 6);
    let compact: HNSW<DenseF32, Graph> =
        HNSW::build_index(line_dataset(80), &config, &ids, &drawn);
    let fixed: HNSW<DenseF32, GraphFixedDegree> =
        HNSW::build_index(line_dataset(80), &config, &ids, &drawn);
    let growable: HNSW<DenseF32, GrowableGraph> =
        HNSW::build_index(line_dataset(80), &config, &ids, &drawn);
    let search_config = HNSWSearchConfiguration::default().with_ef_search(12);
    let query_val = [33.4f32];
    let results = compact.search(&query_val, 4, &search_config);
    assert_eq!(results, fixed.search(&query_val, 4, &search_config));
    assert_eq!(results, growable.search(&query_val, 4, &search_config));
    assert_eq!(results[0].vector, 33);
}

/// The bytes of the dataset and of all levels.
#[test]
fn space_usage_counts_dataset_and_levels() {
    let config = HNSWBuildConfiguration::default().with_num_neighbors(2).with_ef_construction(4);
    let hnsw: HNSW<DenseF32, Graph> =
        HNSW::build_index(line_dataset(2), &config, &[1, 0], &[0, 1]);
    // Dataset: 2 * 4. Upper level: offsets 2 * 8, mapping 8. Ground: links 2 * 4, offsets 3 * 8.
    let word = std::mem::size_of::<usize>();
    let levels = 2 * word + word + 8 + 3 * word;
    assert_eq!(hnsw.space_usage_parts(), (8, levels));
    assert_eq!(hnsw.space_usage_bytes(), 8 + levels);
    assert_eq!(
        hnsw.space_usage_message(),
        format!(
            "[######] Space usage: Dataset: 8 bytes, Index: {} bytes, Total: {} bytes",
            levels,
            8 + levels
        )
    );
}

/// The relaxation 0 is the same as no relaxation, and a larger one explores more.
#[test]
fn adaptive_termination_without_relaxation_is_standard() {
    let hnsw = build_1d_hnsw(100);
    let query_val = [71.2f32];
    let standard = HNSWSearchConfiguration::default().with_ef_search(10);
    let zero = HNSWSearchConfiguration::default()
        .with_ef_search(10)
        .with_early_termination(EarlyTerminationStrategy::DistanceAdaptive { lambda: 0 });
    let relaxed = HNSWSearchConfiguration::default().with_ef_search(10).with_early_termination(
        EarlyTerminationStrategy::DistanceAdaptive { lambda: 0.5f32.to_bits() },
    );
    let results = hnsw.search(&query_val, 5, &standard);
    assert_eq!(results, hnsw.search(&query_val, 5, &zero));
    assert_eq!(hnsw.search(&query_val, 1, &relaxed)[0].vector, 71);
    assert_eq!(EarlyTerminationStrategy::default().lambda(), 0);
    assert_eq!(EarlyTerminationStrategy::DistanceAdaptive { lambda: 7 }.lambda(), 7);
}

/// The expanded lists are sorted by distance, without the node itself, and cut at the bound.
#[test]
fn expanded_lists_are_sorted_and_bounded() {
    let hnsw = build_1d_hnsw(60);
    let acorn_gamma = hnsw.build_acorn_gamma_neighbors(1);
    assert_eq!(acorn_gamma.max_degree(), 8);
    let mut edges = 0;
    for v in 0..60usize {
        let list = acorn_gamma.neighbors(v);
        assert!(list.len() <= 8);
        assert!(!list.contains(&v));
        let distances: Vec<usize> = list.iter().map(|&u| u.abs_diff(v)).collect();
        assert!(distances.windows(2).all(|w| w[0] <= w[1]));
        edges += list.len();
        assert_eq!(acorn_gamma.get_external_id(v), v);
    }
    assert_eq!(acorn_gamma.n_edges(), edges);
    assert_eq!(acorn_gamma.get_space_usage_bytes(), edges * std::mem::size_of::<usize>());
}

/// With expanded lists and no filter, the skipping search is the unfiltered one on those lists.
#[test]
fn skipping_search_without_filter_matches_beam_search() {
    let hnsw = build_1d_hnsw(60);
    let acorn_gamma = hnsw.build_acorn_gamma_neighbors(3);
    let dataset = line_dataset(60);
    let query_val = [12.6f32];
    let evaluator = dataset.query_evaluator(&query_val);
    let entry = kannolo::scored::ScoredItem {
        distance: evaluator.compute_distance(40),
        vector: 40,
    };
    let filtered =
        acorn_gamma.acorn_gamma_search_filtered(&evaluator, entry, 9, 4, 0, &|_: usize| true);
    let plain = acorn_gamma.search_candidates_for_query(&evaluator, entry, 9, 4, 0);
    assert_eq!(filtered.into_sorted_vec(), plain.into_sorted_vec());
}

/// A search returns fewer results than asked for only if there are no more.
#[test]
fn asking_for_more_than_there_is_returns_everything() {
    let hnsw = build_1d_hnsw(30);
    let query_val = [12.2f32];
    let results = hnsw.search(&query_val, 100, &HNSWSearchConfiguration::default());
    assert_eq!(results.len(), 30);
    let mut found: Vec<usize> = results.iter().map(|r| r.vector).collect();
    assert_eq!(&found[..3], &[12, 13, 11]);
    found.sort();
    assert_eq!(found, (0..30).collect::<Vec<usize>>());
    assert!(hnsw.search(&query_val, 0, &HNSWSearchConfiguration::default()).is_empty());
}

/// A beam without room returns nothing, whatever the predicate.
#[test]
fn an_empty_beam_returns_nothing() {
    let hnsw = build_1d_hnsw(50);
    let acorn_gamma = hnsw.build_acorn_gamma_neighbors(2);
    let config = HNSWSearchConfiguration::default().with_ef_search(0);
    let query_val = [25.0f32];
    assert!(hnsw.search(&query_val, 0, &config).is_empty());
    assert!(hnsw.search_filtered(&query_val, 0, &config, |_| false).is_empty());
    assert!(hnsw.search_filtered(&query_val, 0, &config, |_| true).is_empty());
    assert!(hnsw.search_filtered(&query_val, 0, &config, |id| id == 42).is_empty());
    assert!(hnsw.search_filtered_gamma(&query_val, 0, &config, &acorn_gamma, |_| false).is_empty());
    assert!(hnsw.search_filtered_gamma(&query_val, 0, &config, &acorn_gamma, |_| true).is_empty());
    assert_eq!(hnsw.search(&query_val, 1, &config)[0].vector, 25);
}

/// The neighbours of a node are different nodes other than itself, and no node is left alone.
#[test]
fn built_lists_have_no_loops_and_no_duplicates() {
    for batch_size in [16, 1000] {
        let config = HNSWBuildConfiguration::default()
            .with_num_neighbors(3)
            .with_ef_construction(10)
            .with_max_batch_size(batch_size);
        let parts = build(line_dataset(200), &config).into_parts();
        for level in &parts.levels {
            for u in 0..level.n_nodes() {
                let list = level.neighbors(u);
                assert!(!list.contains(&u));
                assert!(level.n_nodes() < 2 || !list.is_empty());
                let mut distinct = list.clone();
                distinct.sort();
                distinct.dedup();
                assert_eq!(distinct.len(), list.len());
            }
        }
    }
}

/// Batches of one vector give the same index as one vector after the other.
#[test]
fn batches_of_one_are_sequential() {
    let config =
        || HNSWBuildConfiguration::default().with_num_neighbors(4).with_ef_construction(20);
    let in_batches = config().with_initial_batch_size(1).with_max_batch_size(1);
    let in_turn = config().with_max_batch_size(1000);
    let a = build(line_dataset(120), &in_batches).into_parts();
    let b = build(line_dataset(120), &in_turn).into_parts();
    assert_eq!(a.levels.len(), b.levels.len());
    for (x, y) in a.levels.iter().zip(&b.levels) {
        assert_eq!(x.n_nodes(), y.n_nodes());
        assert_eq!(x.n_edges(), y.n_edges());
        for u in 0..x.n_nodes() {
            assert_eq!(x.neighbors(u), y.neighbors(u));
            assert_eq!(x.get_external_id(u), y.get_external_id(u));
        }
    }
}

/// What a predicate says of ids that are no nodes does not matter.
#[test]
fn filters_go_by_the_nodes_of_the_graph() {
    let hnsw = build_1d_hnsw(60);
    let acorn_gamma = hnsw.build_acorn_gamma_neighbors(2);
    let config = HNSWSearchConfiguration::default().with_ef_search(20);
    let query_val = [31.3f32];
    let ids = |results: Vec<ScoredItem>| results.iter().map(|r| r.vector).collect::<Vec<usize>>();
    let third = |id: usize| id % 3 == 0;
    let third_or_beyond = |id: usize| id % 3 == 0 || id >= 60;
    assert_eq!(
        ids(hnsw.search_filtered(&query_val, 5, &config, third)),
        ids(hnsw.search_filtered(&query_val, 5, &config, third_or_beyond))
    );
    assert_eq!(
        ids(hnsw.search_filtered_gamma(&query_val, 5, &config, &acorn_gamma, third)),
        ids(hnsw.search_filtered_gamma(&query_val, 5, &config, &acorn_gamma, third_or_beyond))
    );
    assert_eq!(
        ids(hnsw.search_filtered(&query_val, 5, &config, |id| id < 60)),
        ids(hnsw.search(&query_val, 5, &config))
    );
}
