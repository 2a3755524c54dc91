//! An index that is built on one kind of dataset and searched on another.
use kannolo::dataset::{Dataset, QueryEvaluator};
use kannolo::graph::Graph;
use kannolo::hnsw::{HNSWBuildConfiguration, HNSWSearchConfiguration, HNSW};
use kannolo::random::{level_rng, shuffled_ids};
use rand::Rng;

/// An integer that is ordered as `distance` is.
fn key(distance: f32) -> i64 {
    let bits = distance.to_bits() as i32;
    (bits ^ (((bits >> 31) as u32) >> 1) as i32) as i64
}

/// A stored value of a sparse vector.
trait Value: Copy + Sync {
    fn from_f32(value: f32) -> Self;
    fn to_f32(self) -> f32;
}

impl Value for f32 {
    fn from_f32(value: f32) -> f32 {
        value
    }

    fn to_f32(self) -> f32 {
        self
    }
}

/// A value with seven fractional bits.
#[derive(Clone, Copy)]
struct FixedU8(u8);

impl Value for FixedU8 {
    fn from_f32(value: f32) -> FixedU8 {
        FixedU8((value * 128.0).round().clamp(0.0, 255.0) as u8)
    }

    fn to_f32(self) -> f32 {
        self.0 as f32 / 128.0
    }
}

/// A value with thirteen fractional bits.
#[derive(Clone, Copy)]
struct FixedU16(u16);

impl Value for FixedU16 {
    fn from_f32(value: f32) -> FixedU16 {
        FixedU16((value * 8192.0).round().clamp(0.0, 65535.0) as u16)
    }

    fn to_f32(self) -> f32 {
        self.0 as f32 / 8192.0
    }
}

/// A way to store sparse vectors.
trait Rows: Sync + Sized {
    fn n_rows(&self) -> usize;
    fn row(&self, id: usize) -> Vec<(u16, f32)>;
    fn bytes(&self) -> usize;
}

struct ScalarRows<V> {
    rows: Vec<Vec<(u16, V)>>,
}

impl<V: Value> Rows for ScalarRows<V> {
    fn n_rows(&self) -> usize {
        self.rows.len()
    }

    fn row(&self, id: usize) -> Vec<(u16, f32)> {
        self.rows[id].iter().map(|&(c, v)| (c, v.to_f32())).collect()
    }

    fn bytes(&self) -> usize {
        self.rows.iter().map(|row| row.len() * (2 + std::mem::size_of::<V>())).sum()
    }
}

/// Rows packed into bytes: three per stored value.
struct PackedRows {
    bytes: Vec<u8>,
    offsets: Vec<usize>,
}

impl Rows for PackedRows {
    fn n_rows(&self) -> usize {
        self.offsets.len() - 1
    }

    fn row(&self, id: usize) -> Vec<(u16, f32)> {
        self.bytes[self.offsets[id]..self.offsets[id + 1]]
            .chunks_exact(3)
            .map(|b| (u16::from_le_bytes([b[0], b[1]]), FixedU8(b[2]).to_f32()))
            .collect()
    }

    fn bytes(&self) -> usize {
        self.bytes.len()
    }
}

/// Sparse vectors under the inner product: the larger it is, the nearer they are.
struct Sparse<R> {
    rows: R,
    dim: usize,
}

struct SparseEvaluator<'e, R> {
    dataset: &'e Sparse<R>,
    query: Vec<(u16, f32)>,
}

fn dot(a: &[(u16, f32)], b: &[(u16, f32)]) -> f32 {
    let mut sum = 0.0;
    for (c, v) in a {
        for (d, w) in b {
            if c == d {
                sum += v * w;
            }
        }
    }
    sum
}

impl<'e, R: Rows> QueryEvaluator for SparseEvaluator<'e, R> {
    fn n_known(&self) -> usize {
        self.dataset.rows.n_rows()
    }

    fn distance_to(&self, id: usize) -> i64 {
        self.compute_distance(id)
    }

    fn within_relaxation(distance: i64, worst: i64, _lambda: u32) -> bool {
        distance <= worst
    }

    fn compute_distance(&self, id: usize) -> i64 {
        key(-dot(&self.query, &self.dataset.rows.row(id)))
    }

    fn is_within_relaxation(distance: i64, worst: i64, lambda: u32) -> bool {
        Self::within_relaxation(distance, worst, lambda)
    }
}

impl<R: Rows> Dataset for Sparse<R> {
    type Query<'q> = &'q [(u16, f32)];
    type Evaluator<'e>
        = SparseEvaluator<'e, R>
    where
        Self: 'e;

    fn n_vectors(&self) -> usize {
        self.rows.n_rows()
    }

    fn fits<'q>(&self, query: &'q [(u16, f32)]) -> bool {
        query.iter().all(|&(c, _)| (c as usize) < self.dim)
    }

    fn query_distance<'q>(&self, query: &'q [(u16, f32)], id: usize) -> i64 {
        key(-dot(query, &self.rows.row(id)))
    }

    fn vector_distance(&self, from: usize, id: usize) -> i64 {
        key(-dot(&self.rows.row(from), &self.rows.row(id)))
    }

    fn pair_distance(&self, a: usize, b: usize) -> i64 {
        self.vector_distance(a, b)
    }

    fn within(distance: i64, worst: i64, _lambda: u32) -> bool {
        distance <= worst
    }

    fn dimension(&self) -> usize {
        self.dim
    }

    fn space_bytes(&self) -> u128 {
        self.rows.bytes() as u128
    }

    fn len(&self) -> usize {
        self.rows.n_rows()
    }

    fn query_evaluator<'e>(&'e self, query: &'e [(u16, f32)]) -> SparseEvaluator<'e, R> {
        SparseEvaluator { dataset: self, query: query.to_vec() }
    }

    fn vector_evaluator<'e>(&'e self, from: usize) -> SparseEvaluator<'e, R> {
        SparseEvaluator { dataset: self, query: self.rows.row(from) }
    }

    fn compute_distance_between(&self, a: usize, b: usize) -> i64 {
        self.vector_distance(a, b)
    }

    fn input_dim(&self) -> usize {
        self.dim
    }

    fn space_usage_bytes(&self) -> usize {
        self.rows.bytes()
    }
}

fn convert<V: Value>(plain: &Sparse<ScalarRows<f32>>) -> Sparse<ScalarRows<V>> {
    let rows = (0..plain.len())
        .map(|id| plain.rows.row(id).into_iter().map(|(c, v)| (c, V::from_f32(v))).collect())
        .collect();
    Sparse { rows: ScalarRows { rows }, dim: plain.dim }
}

fn pack(plain: Sparse<ScalarRows<f32>>) -> Sparse<PackedRows> {
    let mut bytes = Vec::new();
    let mut offsets = vec![0];
    for id in 0..plain.len() {
        for (c, v) in plain.rows.row(id) {
            bytes.extend_from_slice(&c.to_le_bytes());
            bytes.push(FixedU8::from_f32(v).0);
        }
        offsets.push(bytes.len());
    }
    Sparse { rows: PackedRows { bytes, offsets }, dim: plain.dim }
}

/// The share of the nodes that each level gets.
fn level_probabilities(level_mult: f32, dataset_len: f32) -> Vec<f32> {
    let mut shares = Vec::new();
    let mut level = 0;
    loop {
        let share = (-level as f32 / level_mult).exp() * (1.0 - (-1.0 / level_mult).exp());
        if share < 1.0 / dataset_len {
            return shares;
        }
        shares.push(share);
        level += 1;
    }
}

/// The ids in random order and the level drawn for each.
fn draw_levels(n: usize, m: usize) -> (Vec<usize>, Vec<u8>) {
    let shares = level_probabilities(1.0 / (m as f32).ln(), n as f32);
    let mut rng = level_rng();
    let ids = shuffled_ids(n, &mut rng);
    let mut drawn = Vec::new();
    for _ in 0..n {
        let mut f: f32 = rng.gen_range(0.0..1.0);
        let mut level = (shares.len() - 1) as u8;
        for (l, &share) in shares.iter().enumerate() {
            if f < share {
                level = l as u8;
                break;
            }
            f -= share;
        }
        drawn.push(level);
    }
    (ids, drawn)
}

fn build<D: Dataset + Sync>(dataset: D, config: &HNSWBuildConfiguration) -> HNSW<D, Graph> {
    let (ids, drawn) = draw_levels(dataset.len(), config.num_neighbors_per_vec);
    HNSW::build_index(dataset, config, &ids, &drawn)
}

fn build_test_hnsw() -> HNSW<Sparse<ScalarRows<f32>>, Graph> {
    let mut rows = Vec::new();
    for i in 0u16..30 {
        let mut components: Vec<u16> = (0..5).map(|j: u16| (i * 3 + j) % 20).collect();
        components.sort();
        components.dedup();
        rows.push(components.iter().map(|&c| (c, (c as f32 + 1.0) * 0.1)).collect());
    }
    let dataset = Sparse { rows: ScalarRows { rows }, dim: 20 };
    let config = HNSWBuildConfiguration::default().with_num_neighbors(4).with_ef_construction(20);
    build(dataset, &config)
}

fn test_query() -> Vec<(u16, f32)> {
    vec![(0, 0.5), (1, 0.3), (2, 0.2)]
}

#[test]
fn test_convert_dataset_into_dotvbyte() {
    let plain_hnsw = build_test_hnsw();
    let n = plain_hnsw.n_elements();

    let hnsw: HNSW<Sparse<PackedRows>, Graph> = plain_hnsw.convert_dataset_into(pack);

    assert_eq!(hnsw.n_elements(), n);
}

#[test]
fn test_convert_dataset_into_fixedu8() {
    let plain_hnsw = build_test_hnsw();
    let n = plain_hnsw.n_elements();

    let hnsw: HNSW<Sparse<ScalarRows<FixedU8>>, Graph> =
        plain_hnsw.convert_dataset_into(|plain| convert(&plain));

    assert_eq!(hnsw.n_elements(), n);
}

#[test]
fn test_convert_dataset_into_fixedu16() {
    let plain_hnsw = build_test_hnsw();
    let n = plain_hnsw.n_elements();

    let hnsw: HNSW<Sparse<ScalarRows<FixedU16>>, Graph> =
        plain_hnsw.convert_dataset_into(|plain| convert(&plain));

    assert_eq!(hnsw.n_elements(), n);
}

#[test]
fn test_dotvbyte_search_returns_results() {
    let hnsw: HNSW<Sparse<PackedRows>, Graph> = build_test_hnsw().convert_dataset_into(pack);
    let query = test_query();

    let search_config = HNSWSearchConfiguration::default().with_ef_search(20);
    let results = hnsw.search(&query, 5, &search_config);

    assert!(!results.is_empty());
    assert!(results.len() <= 5);
}

#[test]
fn test_fixedu8_search_returns_results() {
    let hnsw: HNSW<Sparse<ScalarRows<FixedU8>>, Graph> =
        build_test_hnsw().convert_dataset_into(|plain| convert(&plain));
    let query = test_query();

    let search_config = HNSWSearchConfiguration::default().with_ef_search(20);
    let results = hnsw.search(&query, 5, &search_config);

    assert!(!results.is_empty());
    assert!(results.len() <= 5);
}

#[test]
fn test_fixedu16_search_returns_results() {
    let hnsw: HNSW<Sparse<ScalarRows<FixedU16>>, Graph> =
        build_test_hnsw().convert_dataset_into(|plain| convert(&plain));
    let query = test_query();

    let search_config = HNSWSearchConfiguration::default().with_ef_search(20);
    let results = hnsw.search(&query, 5, &search_config);

    assert!(!results.is_empty());
    assert!(results.len() <= 5);
}

/// Only the dataset changes: the levels stay as they are.
#[test]
fn conversion_keeps_the_levels() {
    let plain = build_test_hnsw();
    let counts = plain.nodes_per_level();
    let borrowed: HNSW<Sparse<ScalarRows<FixedU8>>, Graph> = plain.convert_dataset_into_ref(convert);
    assert_eq!(borrowed.nodes_per_level(), counts);
    let from: HNSW<Sparse<ScalarRows<FixedU16>>, Graph> =
        HNSW::convert_dataset_from(build_test_hnsw(), |plain| convert(&plain));
    assert_eq!(from.nodes_per_level(), counts);
    assert_eq!(from.dim(), 20);
    let query = test_query();
    let results = from.search(&query, 30, &HNSWSearchConfiguration::default());
    for pair in results.windows(2) {
        assert!(pair[0].distance <= pair[1].distance);
    }
}
