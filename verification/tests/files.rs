//! The file formats, reports and pruned vectors of the search programs.
use kannolo::float_order::{bits_of_key, order_key};
use kannolo::hnsw::{HNSWBuildConfiguration, HNSWSearchConfiguration};
use kannolo::prune::{descending_positions, kept_positions, prune_query_top_h};
use kannolo::report::{
    parent_group, rerank_params, rerank_result_path, search_params, search_result_path,
};
use kannolo::scored::ScoredItem;
use kannolo::sisap::{
    count_common, csr_row_bounds, decode_permutation, encode_permutation, narrow_components,
    recall_hits, result_matrices,
};
use kannolo::text::append_decimal;

#[test]
fn component_ids_are_cut_to_sixteen_bits() {
    assert_eq!(narrow_components(&[0, 30521, 65535, 65536, -1]), vec![0, 30521, 65535, 0, 65535]);
}

#[test]
fn rows_of_a_sparse_matrix() {
    assert_eq!(csr_row_bounds(&[0, 2, 2, 5], 5), Some(vec![(0, 2), (2, 2), (2, 5)]));
    assert_eq!(csr_row_bounds(&[], 5), Some(vec![]));
    assert_eq!(csr_row_bounds(&[3], 0), Some(vec![]));
    assert_eq!(csr_row_bounds(&[0, 6], 5), None);
    assert_eq!(csr_row_bounds(&[3, 2], 5), None);
    assert_eq!(csr_row_bounds(&[-1, 2], 5), None);
}

fn item(distance: i64, vector: usize) -> ScoredItem {
    ScoredItem { distance, vector }
}

#[test]
fn results_are_reported_from_one_and_filled_up() {
    let results = vec![vec![item(-5, 2), item(-3, 0), item(-1, 1)], vec![item(-9, 1)], vec![]];
    let (knns, distances) = result_matrices(&results, 2, None);
    assert_eq!(knns, vec![3, 1, 2, -1, -1, -1]);
    assert_eq!(distances, vec![Some(-5), Some(-3), Some(-9), None, None, None]);
    let inverse = vec![10, 20, 30];
    let (knns, _) = result_matrices(&results, 2, Some(&inverse));
    assert_eq!(knns, vec![31, 11, 21, -1, -1, -1]);
    assert_eq!(result_matrices(&results, 0, None), (vec![], vec![]));
}

#[test]
fn recall_counts_common_ids_once() {
    assert_eq!(count_common(&[1, 2, 3], &[3, 4, 1]), 2);
    assert_eq!(count_common(&[5, 5, 5], &[5]), 1);
    assert_eq!(count_common(&[], &[5]), 0);
    // Two queries, three found and two true ones each: only two columns are compared.
    assert_eq!(recall_hits(&[1, 2, 9, 4, 5, 6], 3, &[2, 9, 6, 4], 2, 2), vec![1, 1]);
    // Four true ones per query.
    assert_eq!(recall_hits(&[1, 7], 1, &[1, 0, 0, 0, 6, 7, 0, 0], 4, 2), vec![1, 0]);
}

#[test]
fn stored_permutations_are_read_back() {
    let ids = vec![0, 1, 258, 4_000_000_000];
    let bytes = encode_permutation(&ids);
    assert_eq!(bytes.len(), 32);
    assert_eq!(&bytes[16..24], &[2, 1, 0, 0, 0, 0, 0, 0]);
    assert_eq!(decode_permutation(&bytes), ids);
    assert_eq!(decode_permutation(&bytes[..19]), vec![0, 1]);
    assert!(decode_permutation(&[]).is_empty());
}

#[test]
fn the_parent_of_a_group() {
    assert_eq!(parent_group("otest/queries"), "otest");
    assert_eq!(parent_group("a/b/c"), "a/b");
    assert_eq!(parent_group("train"), "train");
    assert_eq!(parent_group("/x"), "");
    assert_eq!(parent_group(""), "");
}

#[test]
fn names_and_parameters_of_result_files() {
    assert_eq!(search_params(16, 150, 100, ""), "M=16,efConstruction=150,efSearch=100");
    assert_eq!(
        search_params(8, 50, 7, ",earlyTermination=distanceAdaptive,lambda=0.5"),
        "M=8,efConstruction=50,efSearch=7,earlyTermination=distanceAdaptive,lambda=0.5"
    );
    assert_eq!(
        search_result_path("results/task3", "kannolo-hnsw", 16, 150, 100, "_lambda1"),
        "results/task3/kannolo-hnsw_M16_efC150_efS100_lambda1.h5"
    );
    assert_eq!(
        rerank_params(16, 150, 100, 40, 5, "0.8", "none", "0.3"),
        "M=16,efConstruction=150,efSearch=100,kCandidates=40,queryTopH=5,l1Fraction=0.8,\
         lambda=none,alpha=0.3"
    );
    assert_eq!(
        rerank_result_path("out", "algo", 1, 2, 3, 4, 5, "none", "0.3"),
        "out/algo_M1_efC2_efS3_kC4_h5_lnone_a0.3.h5"
    );
}

#[test]
fn decimal_numbers() {
    let mut text = String::from("n=");
    append_decimal(&mut text, 0);
    assert_eq!(text, "n=0");
    append_decimal(&mut text, 1234567890);
    assert_eq!(text, "n=01234567890");
    let mut text = String::new();
    append_decimal(&mut text, usize::MAX);
    assert_eq!(text, format!("{}", usize::MAX));
}

fn bits(values: &[f32]) -> Vec<u32> {
    values.iter().map(|v| v.to_bits()).collect()
}

#[test]
fn positions_by_descending_value() {
    let values = bits(&[0.5, -1.0, 3.0, 0.0, -0.0, f32::INFINITY, -2.0]);
    assert_eq!(descending_positions(&values), vec![5, 2, 0, 3, 4, 1, 6]);
    assert_eq!(descending_positions(&bits(&[1.0, 2.0, 1.0, 2.0])), vec![1, 3, 0, 2]);
    assert!(descending_positions(&[]).is_empty());
}

#[test]
fn kept_positions_are_ascending() {
    assert_eq!(kept_positions(&[5, 2, 0, 3], 3, 7), vec![0, 2, 5]);
    assert_eq!(kept_positions(&[5, 2, 0, 3], 9, 7), vec![0, 2, 3, 5]);
    assert!(kept_positions(&[5, 2], 0, 7).is_empty());
}

#[test]
fn pruned_queries_keep_their_largest_values() {
    let components = [3u16, 8, 11, 40];
    let values = bits(&[0.1, 0.9, 0.4, 0.6]);
    assert_eq!(
        prune_query_top_h(&components, &values, 2),
        (vec![8, 40], bits(&[0.9, 0.6]))
    );
    assert_eq!(
        prune_query_top_h(&components, &values, 3),
        (vec![8, 11, 40], bits(&[0.9, 0.4, 0.6]))
    );
    assert_eq!(prune_query_top_h(&components, &values, 0), (vec![], vec![]));
    assert_eq!(prune_query_top_h(&components, &values, 4), (components.to_vec(), values.clone()));
    assert_eq!(prune_query_top_h(&components, &values, 99), (components.to_vec(), values));
}

#[test]
fn default_configurations() {
    let build = HNSWBuildConfiguration::default();
    assert_eq!(build.num_neighbors_per_vec, 16);
    assert_eq!(build.ef_construction, 150);
    assert_eq!(build.initial_build_batch_size, 4);
    assert_eq!(build.max_build_batch_size, 320);
    let build = build.with_initial_batch_size(1).with_max_batch_size(2);
    assert_eq!(build.initial_build_batch_size, 1);
    assert_eq!(build.max_build_batch_size, 2);
    assert_eq!(build.num_neighbors_per_vec, 16);
    assert_eq!(HNSWSearchConfiguration::default().ef_search, 100);
    assert_eq!(HNSWSearchConfiguration::default().early_termination.lambda(), 0);
}

/// The keys are ordered as the numbers are, and lead back to them.
#[test]
fn keys_of_floating_point_numbers() {
    let values = [f32::NEG_INFINITY, -2.5, -1.0, -0.0, 0.0, 1e-30, 1.0, 7.25, f32::INFINITY];
    for pair in values.windows(2) {
        assert!(order_key(pair[0].to_bits()) < order_key(pair[1].to_bits()));
    }
    for value in values {
        assert_eq!(bits_of_key(order_key(value.to_bits())), value.to_bits());
    }
    assert_eq!(order_key(0.0f32.to_bits()), 0);
    assert_eq!(order_key((-0.0f32).to_bits()), -1);
}
