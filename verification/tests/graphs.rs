//! The ways to store a graph, and the choice of links.
use kannolo::dataset::{Dataset, QueryEvaluator};
use kannolo::dense::DenseDataset;
use kannolo::graph::compact::GraphParts;
use kannolo::graph::growable::{FromGrowable, IntoGrowable};
use kannolo::graph::{Graph, GraphFixedDegree, GraphTrait, GrowableGraph};
use kannolo::scored::{ScoredItem, TopList};

/// A graph of four nodes with room for three neighbours each.
fn small_graph() -> GrowableGraph {
    let mut g = GrowableGraph::with_max_degree(3);
    g.reserve(4);
    g.push_with_precomputed_reverse_links(None, &[1, 2], 0, &[]);
    g.push_with_precomputed_reverse_links(None, &[0], 1, &[]);
    g.push_with_precomputed_reverse_links(None, &[3, 0, 1], 2, &[]);
    g
}

fn lists(g: &impl GraphTrait) -> Vec<Vec<usize>> {
    (0..g.n_nodes()).map(|u| g.neighbors(u)).collect()
}

#[test]
fn pushed_links_are_read_back() {
    let g = small_graph();
    assert_eq!(lists(&g), vec![vec![1, 2], vec![0], vec![3, 0, 1], vec![]]);
    assert_eq!(g.n_nodes(), 4);
    assert_eq!(g.n_edges(), 6);
    assert_eq!(g.max_degree(), 3);
    assert!(!g.is_empty());
    assert!(GrowableGraph::default().is_empty());
    assert_eq!(g.get_external_id(9), 9);
}

/// A shorter list is written over the front of the old one; reverse links replace whole lists.
#[test]
fn pushes_overlay_forward_links_and_replace_reverse_links() {
    let mut g = small_graph();
    g.push_with_precomputed_reverse_links(None, &[2], 2, &[(0, vec![3]), (1, vec![2, 3])]);
    assert_eq!(lists(&g), vec![vec![3], vec![2, 3], vec![2, 0, 1], vec![]]);
    assert_eq!(g.n_edges(), 6);
    g.push_with_precomputed_reverse_links(None, &[], 3, &[(0, vec![])]);
    assert_eq!(g.n_edges(), 5);
    g.reserve(2);
    assert_eq!(lists(&g), vec![Vec::<usize>::new(), vec![]]);
    assert_eq!(g.n_edges(), 0);
}

#[test]
fn a_mapping_must_have_an_id_per_node() {
    let mut g = small_graph();
    assert_eq!(
        g.set_mapping(vec![5, 6, 7]),
        Err("Mapping length mismatch: got 3, expected 4".to_string())
    );
    assert_eq!(g.get_external_id(2), 2);
    assert_eq!(g.set_mapping(vec![50, 60, 70, 80]), Ok(()));
    assert_eq!(g.get_external_id(2), 70);
    g.push_with_precomputed_reverse_links(Some(99), &[0], 2, &[]);
    assert_eq!(g.get_external_id(2), 99);
    g.push_with_precomputed_reverse_links(None, &[], 3, &[]);
    assert_eq!(g.get_external_id(3), 3);
}

#[test]
fn inserted_nodes_are_counted() {
    let mut g = GrowableGraph::with_max_degree(2);
    assert_eq!(g.inserted_nodes(), 0);
    g.advance_inserted_nodes(3);
    g.advance_inserted_nodes(2);
    assert_eq!(g.inserted_nodes(), 5);
}

/// Every way to store a graph represents the same graph, and leads back.
#[test]
fn conversions_keep_the_graph() {
    let expected = lists(&small_graph());
    let mut mapped = small_graph();
    mapped.set_mapping(vec![9, 8, 7, 6]).unwrap();
    let compact = Graph::from_growable(mapped);
    assert_eq!(lists(&compact), expected);
    assert_eq!(compact.n_edges(), 6);
    assert_eq!(compact.get_external_id(1), 8);
    assert!(compact.is_mapped());
    let back = compact.into_growable();
    assert_eq!(lists(&back), expected);
    assert_eq!(back.inserted_nodes(), 4);
    assert_eq!(back.get_external_id(3), 6);
    let fixed = GraphFixedDegree::from_growable(back);
    assert_eq!(lists(&fixed), expected);
    assert_eq!(fixed.n_edges(), 6);
    assert_eq!(fixed.max_degree(), 3);
    assert_eq!(fixed.get_external_id(0), 9);
    let again = GrowableGraph::from_growable(fixed.into_growable()).into_growable();
    assert_eq!(lists(&again), expected);
    assert_eq!(GraphFixedDegree::default().n_nodes(), 0);
    assert_eq!(Graph::default().n_nodes(), 0);
}

#[test]
fn space_usage_is_that_of_the_stored_numbers() {
    let word = std::mem::size_of::<usize>();
    let g = small_graph();
    assert_eq!(g.get_space_usage_bytes(), 4 * 12);
    let fixed = GraphFixedDegree::from_growable(g);
    assert_eq!(fixed.get_space_usage_bytes(), 4 * 12);
    let mut mapped = small_graph();
    mapped.set_mapping(vec![3, 2, 1, 0]).unwrap();
    assert_eq!(mapped.get_space_usage_bytes(), 4 * 12 + 4 * word);
    let compact = Graph::from_growable(mapped);
    assert_eq!(compact.get_space_usage_bytes(), 6 * 4 + 5 * word + 4 * word);
    assert_eq!(Graph::default().get_space_usage_bytes(), 0);
}

fn parts(neighbors: Vec<u32>, offsets: Vec<usize>, n_nodes: usize) -> GraphParts {
    GraphParts { neighbors, offsets, ids_mapping: None, max_degree: 2, n_nodes }
}

#[test]
fn stored_parts_are_checked() {
    let graph = Graph::from_parts(parts(vec![1, 0], vec![0, 1, 2], 2)).unwrap();
    assert_eq!(lists(&graph), vec![vec![1], vec![0]]);
    let again = graph.into_parts();
    assert_eq!(again.neighbors, vec![1, 0]);
    assert_eq!(again.offsets, vec![0, 1, 2]);
    assert!(Graph::from_parts(parts(vec![], vec![], 0)).is_some());
    assert!(Graph::from_parts(parts(vec![1], vec![], 0)).is_none());
    assert!(Graph::from_parts(parts(vec![1, 0], vec![0, 2], 2)).is_none());
    assert!(Graph::from_parts(parts(vec![1, 0], vec![1, 1, 2], 2)).is_none());
    assert!(Graph::from_parts(parts(vec![1, 0], vec![0, 1, 1], 2)).is_none());
    assert!(Graph::from_parts(parts(vec![1, 0, 1], vec![0, 3, 3], 2)).is_none());
    assert!(Graph::from_parts(parts(vec![1, 0], vec![0, 3, 2], 2)).is_none());
    let mut mapped = parts(vec![1, 0], vec![0, 1, 2], 2);
    mapped.ids_mapping = Some(vec![4]);
    assert!(Graph::from_parts(mapped).is_none());
}

/// One-dimensional vectors at the given places.
fn dataset(places: &[i16]) -> DenseDataset {
    DenseDataset::from_raw(places.to_vec(), places.len(), 1)
}

fn top(items: &[(i64, usize)]) -> TopList {
    let mut list = TopList::new();
    for &(distance, vector) in items {
        list.push(ScoredItem { distance, vector });
    }
    list
}

/// Of two near candidates only the nearer one is kept, so that the links point everywhere.
#[test]
fn shrinking_keeps_neighbors_that_stand_apart() {
    let data = dataset(&[0, 10, 11, -20, 40]);
    let mut g = GrowableGraph::with_max_degree(4);
    g.reserve(5);
    // Seen from node 0.
    let candidates = top(&[(100, 1), (121, 2), (400, 3), (1600, 4)]);
    assert_eq!(g.shrink_neighbor_list(&data, &candidates, 4), vec![1, 2, 3, 4]);
    assert_eq!(g.shrink_neighbor_list(&data, &candidates, 3), vec![1, 3]);
    assert_eq!(g.shrink_neighbor_list(&data, &candidates, 1), vec![1]);
    assert!(g.shrink_neighbor_list(&data, &TopList::new(), 2).is_empty());
}

#[test]
fn reverse_links_take_the_new_node_in() {
    let data = dataset(&[0, 10, -10, 3, 100]);
    let mut g = GrowableGraph::with_max_degree(2);
    g.reserve(5);
    g.push_with_precomputed_reverse_links(None, &[1, 2], 0, &[]);
    let links = g.precompute_reverse_links(&data, 3, &[0, 4]);
    // Node 0 keeps the nearest one and the one on the other side; node 4 had no neighbours.
    assert_eq!(links, vec![(0, vec![3, 2]), (4, vec![3])]);
    assert!(g.precompute_reverse_links(&data, 3, &[]).is_empty());
}

/// The entry point for the next level is the nearest candidate.
#[test]
fn the_plan_of_a_new_node_hands_on_the_nearest_candidate() {
    let data = dataset(&[0, 10, 20, 21]);
    let mut g = GrowableGraph::with_max_degree(2);
    g.reserve(4);
    g.push_with_precomputed_reverse_links(None, &[1], 0, &[]);
    g.push_with_precomputed_reverse_links(None, &[0, 2], 1, &[]);
    g.push_with_precomputed_reverse_links(None, &[1], 2, &[]);
    let evaluator = data.vector_evaluator(3);
    let entry = ScoredItem { distance: evaluator.compute_distance(0), vector: 0 };
    let (forward, reverse, nearest) =
        g.find_and_prune_neighbors(&data, &evaluator, entry, 10, 2, 3);
    assert_eq!(nearest, ScoredItem { distance: 1, vector: 2 });
    assert_eq!(forward, vec![2]);
    assert_eq!(reverse, vec![(2, vec![3, 1])]);
}

/// A greedy walk stops where no neighbour is nearer.
#[test]
fn greedy_walks_end_at_a_local_minimum() {
    let data = dataset(&[0, 10, 20, 30, 12]);
    let mut g = GrowableGraph::with_max_degree(2);
    g.reserve(5);
    for (u, list) in [vec![1], vec![0, 2], vec![1, 3], vec![2, 4], vec![3]].iter().enumerate() {
        g.push_with_precomputed_reverse_links(None, list, u, &[]);
    }
    let query = [13i16];
    let evaluator = data.query_evaluator(&query);
    let entry = ScoredItem { distance: evaluator.compute_distance(3), vector: 3 };
    // From 30 to 12, whose only neighbour is farther.
    assert_eq!(
        g.greedy_search_nearest(&evaluator, entry),
        ScoredItem { distance: 1, vector: 4 }
    );
    let entry = ScoredItem { distance: evaluator.compute_distance(0), vector: 0 };
    assert_eq!(
        g.greedy_search_nearest(&evaluator, entry),
        ScoredItem { distance: 9, vector: 1 }
    );
}

/// Results come sorted, without duplicates, and no more than asked for.
#[test]
fn top_k_results_are_sorted_and_distinct() {
    let data = dataset(&[5, 3, 8, 1, 9, 2]);
    let mut g = GrowableGraph::with_max_degree(5);
    g.reserve(6);
    for u in 0..6usize {
        let list: Vec<usize> = (0..6).filter(|&v| v != u).collect();
        g.push_with_precomputed_reverse_links(None, &list, u, &[]);
    }
    let query = [0i16];
    let evaluator = data.query_evaluator(&query);
    let entry = ScoredItem { distance: evaluator.compute_distance(4), vector: 4 };
    let results = g.greedy_search_topk(&evaluator, entry, 4, 6, 0);
    let found: Vec<(i64, usize)> = results.iter().map(|x| (x.distance, x.vector)).collect();
    assert_eq!(found, vec![(1, 3), (4, 5), (9, 1), (25, 0)]);
    // A beam with room for all nodes finds everything that can be reached.
    let all = g.search_candidates_for_query(&evaluator, entry, 6, 0, 0).into_sorted_vec();
    assert_eq!(all.len(), 6);
    // A beam of one item keeps the nearest.
    let one = g.search_candidates_for_insert(&evaluator, entry, 1).into_sorted_vec();
    assert_eq!(one, vec![ScoredItem { distance: 1, vector: 3 }]);
}

/// Filters that let everything or nothing pass.
#[test]
fn trivial_filters() {
    let data = dataset(&[0, 1, 2, 3, 4, 5, 6, 7]);
    let mut g = GrowableGraph::with_max_degree(2);
    g.reserve(8);
    for u in 0..8usize {
        let list: Vec<usize> = [u.wrapping_sub(1), u + 1].into_iter().filter(|&v| v < 8).collect();
        g.push_with_precomputed_reverse_links(None, &list, u, &[]);
    }
    let query = [6i16];
    let evaluator = data.query_evaluator(&query);
    let entry = ScoredItem { distance: evaluator.compute_distance(1), vector: 1 };
    let plain = g.search_candidates_for_query(&evaluator, entry, 3, 3, 0).into_sorted_vec();
    let all = |_: usize| true;
    let none = |_: usize| false;
    let two_hop = g.acorn_search_candidates_filtered(&evaluator, entry, 3, 3, 0, &all);
    assert_eq!(two_hop.into_sorted_vec(), plain);
    let skipping = g.acorn_gamma_search_filtered(&evaluator, entry, 3, 3, 0, &all);
    assert_eq!(skipping.into_sorted_vec(), plain);
    assert_eq!(g.acorn_search_candidates_filtered(&evaluator, entry, 3, 3, 0, &none).len(), 0);
    assert_eq!(g.acorn_gamma_search_filtered(&evaluator, entry, 3, 3, 0, &none).len(), 0);
    // The two-hop search reaches through nodes that fail; the skipping search does not.
    let even = |id: usize| id % 2 == 0;
    let two_hop = g.acorn_search_candidates_filtered(&evaluator, entry, 8, 8, 0, &even);
    let found: Vec<usize> = two_hop.into_sorted_vec().iter().map(|x| x.vector).collect();
    assert_eq!(found, vec![6, 4, 2, 0]);
    let skipping = g.acorn_gamma_search_filtered(&evaluator, entry, 8, 8, 0, &even);
    let found: Vec<usize> = skipping.into_sorted_vec().iter().map(|x| x.vector).collect();
    assert_eq!(found, vec![2, 0]);
}

/// The dense vectors and their distances.
#[test]
fn dense_vectors_under_the_squared_euclidean_distance() {
    let data = DenseDataset::from_raw(vec![0, 0, 3, 4, -5, 12], 3, 2);
    assert_eq!(data.len(), 3);
    assert_eq!(data.input_dim(), 2);
    assert_eq!(data.space_usage_bytes(), 12);
    assert_eq!(data.get(1), &[3, 4]);
    assert_eq!(data.compute_distance_between(0, 1), 25);
    assert_eq!(data.compute_distance_between(2, 0), 169);
    let query = [3i16, 0];
    let evaluator = data.query_evaluator(&query);
    assert_eq!(evaluator.compute_distance(1), 16);
    assert_eq!(evaluator.compute_distances_batch6([0, 1, 2, 0, 1, 2]), [9, 16, 208, 9, 16, 208]);
    type Evaluator<'e> = <DenseDataset as Dataset>::Evaluator<'e>;
    assert!(Evaluator::is_within_relaxation(10, 10, 0));
    assert!(!Evaluator::is_within_relaxation(11, 10, 0));
    assert!(Evaluator::is_within_relaxation(11, 10, 100));
}

/// A push that has nothing to write does not look at the node.
#[test]
fn an_empty_push_needs_no_node() {
    let mut g = small_graph();
    g.push_with_precomputed_reverse_links(None, &[], 7, &[(3, vec![2])]);
    assert_eq!(lists(&g), vec![vec![1, 2], vec![0], vec![3, 0, 1], vec![2]]);
    assert_eq!(g.inserted_nodes(), 0);
}
