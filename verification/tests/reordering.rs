//! Permutations, level assignments and reordered indexes.
use kannolo::dense::DenseDataset;
use kannolo::graph::{Graph, GraphTrait, GrowableGraph};
use kannolo::graph::growable::FromGrowable;
use kannolo::hnsw::parts::IndexParts;
use kannolo::hnsw::{HNSWBuildConfiguration, HNSWSearchConfiguration, HNSW};
use kannolo::levels::compute_levels;
use kannolo::permutation::{
    compute_egb_permutation, invert_mapping, upper_level_order_preserving_hnsw_prefixes,
    validate_permutation,
};
use kannolo::random::{level_rng, shuffled_ids, LEVEL_SEED};
use rand::rngs::StdRng;
use rand::seq::SliceRandom;
use rand::SeedableRng;

#[test]
fn inverting_twice_gives_the_permutation_back() {
    let p = vec![2, 0, 3, 1];
    let q = invert_mapping(&p);
    assert_eq!(q, vec![1, 3, 0, 2]);
    assert_eq!(invert_mapping(&q), p);
    for i in 0..4 {
        assert_eq!(q[p[i]], i);
        assert_eq!(p[q[i]], i);
    }
    assert_eq!(invert_mapping(&[1, 1, 0]), vec![2, 1, 0]);
    assert!(invert_mapping(&[]).is_empty());
}

#[test]
fn faulty_permutations_are_reported() {
    assert_eq!(validate_permutation(&[]), Ok(()));
    assert_eq!(validate_permutation(&[1, 2, 0]), Ok(()));
    assert_eq!(
        validate_permutation(&[1, 3, 0]),
        Err("invalid permutation: value 3 at position 1 out of range".to_string())
    );
    assert_eq!(
        validate_permutation(&[0, 0, 7]),
        Err("invalid permutation: duplicate value 0".to_string())
    );
    assert_eq!(
        validate_permutation(&[0, 1234567890]),
        Err("invalid permutation: value 1234567890 at position 1 out of range".to_string())
    );
}

#[test]
fn shuffled_ids_are_a_permutation() {
    let ids = shuffled_ids(100, &mut level_rng());
    assert_eq!(validate_permutation(&ids), Ok(()));
    assert_ne!(ids, (0..100).collect::<Vec<usize>>());
    assert_eq!(ids, shuffled_ids(100, &mut level_rng()));
    let mut rng = level_rng();
    let first = shuffled_ids(100, &mut rng);
    assert_ne!(first, shuffled_ids(100, &mut rng));
}

#[test]
fn levels_are_drawn_with_the_generator_of_a_fixed_seed() {
    assert_eq!(LEVEL_SEED, 523);
    assert_eq!(level_rng(), StdRng::seed_from_u64(523));
    assert_ne!(level_rng(), StdRng::seed_from_u64(524));
}

/// The order and the state of the generator afterwards are those that shuffling `0..n` gives.
#[test]
fn shuffled_ids_come_from_the_generator() {
    let mut rng = level_rng();
    let ids = shuffled_ids(50, &mut rng);
    let mut same = StdRng::seed_from_u64(523);
    let mut expected: Vec<usize> = (0..50).collect();
    expected.shuffle(&mut same);
    assert_eq!(ids, expected);
    assert_eq!(rng, same);
    assert_ne!(rng, level_rng());
}

/// An index of a single level has no mapping to the ground level, before and after reordering.
#[test]
fn a_single_level_needs_no_mapping() {
    let index = build(&places(6), &[0, 0, 0, 0, 0, 0]);
    let (moved, _) = index.remap_with_permutation(&[5, 4, 3, 2, 1, 0], |_, permutation| {
        let mut moved = vec![0i16; 6];
        for (old, &new) in permutation.iter().enumerate() {
            moved[new] = places(6)[old];
        }
        DenseDataset::from_raw(moved, 6, 1)
    });
    let parts = index.into_parts();
    assert_eq!(parts.levels.len(), 1);
    assert!(parts.level1_to_level0_mapping.is_empty());
    assert!(moved.into_parts().level1_to_level0_mapping.is_empty());
    let two = build(&places(3), &[1, 0, 1]).into_parts();
    assert_eq!(two.level1_to_level0_mapping, vec![0, 2]);
}

#[test]
fn every_vector_is_on_all_levels_up_to_the_drawn_one() {
    let assignment = compute_levels(&[4, 2, 0, 3, 1], &[0, 2, 0, 1, 2]);
    assert_eq!(assignment.max_level, 2);
    assert_eq!(assignment.ids_sorted_by_level, vec![2, 1, 3, 4, 0]);
    assert_eq!(assignment.cumulative_ids_per_level, vec![0, 2, 3, 5]);
    assert_eq!(assignment.levels_mapping, vec![vec![2, 1, 3], vec![2, 1]]);
    let flat = compute_levels(&[1, 0], &[0, 0]);
    assert_eq!(flat.max_level, 0);
    assert_eq!(flat.ids_sorted_by_level, vec![1, 0]);
    assert_eq!(flat.cumulative_ids_per_level, vec![0, 2]);
    assert!(flat.levels_mapping.is_empty());
    // A level that nobody drew is still there, with the vectors of the higher ones.
    let gap = compute_levels(&[0, 1], &[3, 0]);
    assert_eq!(gap.levels_mapping, vec![vec![0], vec![0], vec![0]]);
    assert_eq!(gap.cumulative_ids_per_level, vec![0, 1, 1, 1, 2]);
}

/// A compact graph with the given lists and dataset ids.
fn graph(lists: &[Vec<usize>], max_degree: usize, ids: Option<Vec<usize>>) -> Graph {
    let mut g = GrowableGraph::with_max_degree(max_degree);
    g.reserve(lists.len());
    for (u, list) in lists.iter().enumerate() {
        g.push_with_precomputed_reverse_links(None, list, u, &[]);
    }
    if let Some(ids) = ids {
        g.set_mapping(ids).unwrap();
    }
    Graph::from_growable(g)
}

#[test]
fn the_level_above_stays_a_prefix() {
    let level = graph(&[vec![], vec![], vec![], vec![]], 1, Some(vec![5, 0, 3, 2]));
    let permutation = [4, 5, 0, 3, 2, 1];
    // Without a level above, the nodes come by the new ids of their vectors: 1, 4, 3, 0.
    assert_eq!(
        upper_level_order_preserving_hnsw_prefixes(&level, &permutation, &[]),
        vec![3, 0, 2, 1]
    );
    assert_eq!(
        upper_level_order_preserving_hnsw_prefixes(&level, &permutation, &[3, 0]),
        vec![2, 1, 3, 0]
    );
}

#[test]
fn bisected_graphs_become_documents() {
    let g = graph(&[vec![2, 4], vec![4, 2, 2], vec![], vec![0], vec![2]], 3, None);
    let permutation = compute_egb_permutation(&g, |documents, n_terms, settings| {
        assert_eq!(n_terms, 3);
        let terms: Vec<Vec<u32>> = documents.iter().map(|d| d.terms.clone()).collect();
        // The neighbours 0, 2 and 4 are the terms 0, 1 and 2.
        assert_eq!(terms, vec![vec![1, 2], vec![1, 2], vec![], vec![0], vec![1]]);
        let ids: Vec<u32> = documents.iter().map(|d| d.org_id).collect();
        assert_eq!(ids, vec![0, 1, 2, 3, 4]);
        assert_eq!(settings.iterations, 10);
        assert_eq!(settings.min_partition_size, 64);
        assert_eq!(settings.max_depth, 100);
        assert_eq!(settings.parallel_switch, 100);
        assert_eq!(settings.depth_limit, 1);
        assert!(settings.sort_leaf);
        assert_eq!(settings.id, 1);
        vec![3, 0, 1, 4, 2]
    });
    assert_eq!(permutation, vec![1, 2, 4, 0, 3]);
}

#[test]
fn reordered_graphs_keep_their_links() {
    let g = graph(&[vec![1, 2], vec![0], vec![1]], 2, None);
    let (moved, inverse) = g.remap_ground_with_permutation(&[2, 0, 1]);
    assert_eq!(inverse, vec![1, 2, 0]);
    // Node 2 is the old node 0, node 0 the old node 1, node 1 the old node 2.
    assert_eq!(moved.neighbors(2), vec![0, 1]);
    assert_eq!(moved.neighbors(0), vec![2]);
    assert_eq!(moved.neighbors(1), vec![0]);
    assert_eq!(moved.max_degree(), 2);
    let upper = graph(&[vec![1, 2], vec![0], vec![1]], 2, Some(vec![3, 1, 0]));
    let (moved, locals) = upper.remap_level_with_old_local_order(&[1, 2, 0], &[6, 7, 8, 9]);
    assert_eq!(locals, vec![2, 0, 1]);
    assert_eq!(moved.neighbors(2), vec![0, 1]);
    assert_eq!(moved.get_external_id(0), 7);
    assert_eq!(moved.get_external_id(1), 6);
    assert_eq!(moved.get_external_id(2), 9);
}

/// Vectors on a line at growing distances, so that no two are equally far from the query.
fn places(n: usize) -> Vec<i16> {
    (0..n).map(|i| (i * i) as i16).collect()
}

fn build(places: &[i16], drawn: &[u8]) -> HNSW<DenseDataset, Graph> {
    let n = places.len();
    let dataset = DenseDataset::from_raw(places.to_vec(), n, 1);
    let config = HNSWBuildConfiguration::default().with_num_neighbors(3).with_ef_construction(12);
    let ids: Vec<usize> = (0..n).map(|i| (i * 7 + 3) % n).collect();
    HNSW::build_index(dataset, &config, &ids, drawn)
}

#[test]
fn a_reordered_index_finds_the_same_vectors() {
    let n = 40;
    let drawn: Vec<u8> =
        (0..n).map(|i| if i % 16 == 5 { 2 } else if i % 4 == 1 { 1 } else { 0 }).collect();
    let before = build(&places(n), &drawn);
    let (after, inverse) = before.reorder_by_egb(
        |_, permutation| {
            let old = invert_mapping(permutation);
            let moved = old.iter().map(|&id| places(n)[id]).collect();
            DenseDataset::from_raw(moved, n, 1)
        },
        |documents, _, _| {
            let mut order: Vec<usize> = (0..documents.len()).collect();
            order.sort_by_key(|&i| (i * 13 + 5) % n);
            order
        },
    );
    assert_eq!(validate_permutation(&inverse), Ok(()));
    assert_ne!(inverse, (0..n).collect::<Vec<usize>>());
    assert_eq!(after.nodes_per_level(), before.nodes_per_level());
    let config = HNSWSearchConfiguration::default().with_ef_search(6);
    for query in [[-1i16], [301], [1600], [77]] {
        let expected = before.search(&query, 4, &config);
        let found = after.search(&query, 4, &config);
        let translated: Vec<(i64, usize)> =
            found.iter().map(|x| (x.distance, inverse[x.vector])).collect();
        let expected: Vec<(i64, usize)> =
            expected.iter().map(|x| (x.distance, x.vector)).collect();
        assert_eq!(translated, expected);
    }
}

#[test]
fn a_reordered_single_level_keeps_its_entry() {
    let n = 9;
    let before = build(&places(n), &vec![0; n]);
    let permutation = [8, 7, 6, 5, 4, 3, 2, 1, 0];
    let (after, inverse) = before.remap_with_permutation(&permutation, |_, permutation| {
        let old = invert_mapping(permutation);
        DenseDataset::from_raw(old.iter().map(|&id| places(n)[id]).collect(), n, 1)
    });
    assert_eq!(inverse, permutation.to_vec());
    let parts = after.into_parts();
    assert_eq!(parts.entry_point, 8);
    assert_eq!(parts.levels.len(), 1);
}

#[test]
fn parts_of_an_index_are_checked() {
    let n = 20;
    let drawn: Vec<u8> = (0..n).map(|i| if i % 5 == 0 { 1 } else { 0 }).collect();
    let index = build(&places(n), &drawn);
    let query = [50i16];
    let config = HNSWSearchConfiguration::default();
    let expected = index.search(&query, 3, &config);
    let parts = index.into_parts();
    let again = HNSW::from_parts(parts).unwrap();
    assert_eq!(again.search(&query, 3, &config), expected);

    let mut parts = again.into_parts();
    parts.entry_point = 4;
    assert!(HNSW::from_parts(parts).is_none());

    let mut parts = build(&places(n), &drawn).into_parts();
    parts.level1_to_level0_mapping[0] += 1;
    assert!(HNSW::from_parts(parts).is_none());

    let mut parts = build(&places(n), &drawn).into_parts();
    parts.levels.pop();
    assert!(HNSW::from_parts(parts).is_none());

    let mut parts = build(&places(n), &drawn).into_parts();
    parts.dataset = DenseDataset::from_raw(places(n - 1), n - 1, 1);
    assert!(HNSW::from_parts(parts).is_none());

    let dataset = || DenseDataset::from_raw(places(2), 2, 1);
    let index_of = |levels: Vec<Graph>, mapping: Vec<usize>| {
        HNSW::from_parts(IndexParts {
            levels,
            level1_to_level0_mapping: mapping,
            dataset: dataset(),
            num_neighbors_per_vec: 1,
            entry_point: 0,
        })
    };
    let ground = || graph(&[vec![1], vec![0]], 1, None);
    assert!(index_of(vec![ground()], vec![]).is_some());
    assert!(index_of(vec![], vec![]).is_none());
    // A link that leads nowhere.
    assert!(index_of(vec![graph(&[vec![2], vec![0]], 1, None)], vec![]).is_none());
    // Two nodes for one vector, a vector that is not there, and an upper level without ids.
    let empty = || vec![vec![], vec![]];
    assert!(index_of(vec![graph(&empty(), 1, Some(vec![1, 0])), ground()], vec![1, 0]).is_some());
    assert!(index_of(vec![graph(&empty(), 1, Some(vec![1, 1])), ground()], vec![1, 1]).is_none());
    assert!(index_of(vec![graph(&empty(), 1, Some(vec![1, 2])), ground()], vec![1, 2]).is_none());
    assert!(index_of(vec![graph(&empty(), 1, None), ground()], vec![0, 1]).is_none());
    // Levels that are not nested.
    let one = |id: usize| graph(&[vec![]], 1, Some(vec![id]));
    let two = || graph(&empty(), 1, Some(vec![1, 0]));
    assert!(index_of(vec![one(1), two(), ground()], vec![1, 0]).is_some());
    assert!(index_of(vec![one(0), two(), ground()], vec![1, 0]).is_none());
}

/// Reordering keeps the number of levels and of nodes on each; the dataset is asked for once.
#[test]
fn a_reordered_index_keeps_its_level_sizes() {
    let before = build(&places(9), &[0, 1, 0, 2, 0, 0, 1, 0, 0]);
    let mut calls = 0;
    let (after, inverse) = before.reorder_by_egb(
        |_, permutation| {
            calls += 1;
            assert_eq!(permutation, [8, 7, 6, 5, 4, 3, 2, 1, 0]);
            let old = invert_mapping(permutation);
            DenseDataset::from_raw(old.iter().map(|&id| places(9)[id]).collect(), 9, 1)
        },
        |documents, _, _| (0..documents.len()).rev().collect(),
    );
    assert_eq!(calls, 1);
    assert_eq!(inverse, vec![8, 7, 6, 5, 4, 3, 2, 1, 0]);
    assert_eq!(before.nodes_per_level(), vec![1, 3, 9]);
    assert_eq!(after.nodes_per_level(), vec![1, 3, 9]);
    assert_eq!(after.max_level(), before.max_level());
}
