use std::collections::HashMap;

use marline::clusterer::eq_clusterer::ClusterStats as EqStats;
use marline::clusterer::graph_clusterer::ClusterStats;
use marline::clusterer::{EqClusterer, GraphClusterer};

fn generate_test_data() -> Vec<u8> {
    const TEST_DATA_SIZE: usize = 32000;
    (0..TEST_DATA_SIZE).map(|_| rand::random::<u8>()).collect()
}

/// Distinct keys in a narrow range, taken from the data four bytes at a
/// time, so that keys lie close enough to form clusters.
fn keys_from(data: &[u8]) -> Vec<u32> {
    let mut seen = std::collections::HashSet::new();
    let mut keys = Vec::new();
    for w in data.chunks(4) {
        let k = u32::from_le_bytes([w[0], w[1], w[2], w[3]]) % 20000;
        if seen.insert(k) {
            keys.push(k);
        }
    }
    keys
}

fn create_scrub_report(data: Vec<u8>) -> (HashMap<u32, Vec<usize>>, ClusterStats, Vec<u32>) {
    let mut clusterer = GraphClusterer::default();
    clusterer.clusterize(&keys_from(&data))
}

#[test]
fn scrub_should_return_non_empty_scrub_measurements_for_graph_clusterer() {
    let test_data = generate_test_data();
    let (_, cluster_report, parent_vertices) = create_scrub_report(test_data);

    assert!(cluster_report.total_cluster_size > 0);
    assert!(cluster_report.number_of_clusters > 0);
    assert!(cluster_report.number_of_vertices_in_cluster.values().all(|&v| v >= 1));
    assert!(!cluster_report.distance_to_vertices_in_cluster.is_empty());
    assert_eq!(parent_vertices.len(), cluster_report.number_of_clusters);
}

#[test]
fn scrub_should_return_scrub_measurements_with_correct_distance_to_vertices_in_cluster() {
    let test_data = generate_test_data();
    let (_, cluster_report, _) = create_scrub_report(test_data);

    for (parent_key, &cluster_size) in &cluster_report.number_of_vertices_in_cluster {
        assert!(cluster_size > 0);

        let cluster_points = &cluster_report.distance_to_vertices_in_cluster[parent_key];

        // The parent vertex is ignored.
        assert_eq!(cluster_points.len(), cluster_size - 1);
    }
}

#[test]
fn total_cluster_size_matches_sum_of_cluster_vertices() {
    let test_data = generate_test_data();
    let (_, cluster_report, _) = create_scrub_report(test_data);

    let sum_vertices: usize = cluster_report.number_of_vertices_in_cluster.values().sum();

    assert_eq!(cluster_report.total_cluster_size, sum_vertices);
}

#[test]
fn keys_join_the_nearest_root_within_reach() {
    let mut clusterer = GraphClusterer::new(10);
    let (clusters, stats, roots) = clusterer.clusterize(&vec![100, 105, 200, 111, 95]);

    assert_eq!(clusters[&100], vec![0, 1, 4]);
    assert_eq!(clusters[&200], vec![2]);
    assert_eq!(clusters[&111], vec![3]);
    assert_eq!(clusters.len(), 3);
    assert_eq!(roots, vec![100, 200, 111]);
    assert_eq!(stats.total_cluster_size, 5);
    assert_eq!(stats.number_of_clusters, 3);
    assert_eq!(stats.number_of_vertices_in_cluster[&100], 3);
    assert_eq!(stats.number_of_vertices_in_cluster[&200], 1);
    assert_eq!(stats.number_of_vertices_in_cluster[&111], 1);
    assert_eq!(stats.distance_to_vertices_in_cluster[&100], vec![5, 5]);
    assert!(stats.distance_to_vertices_in_cluster[&200].is_empty());
    assert!(stats.distance_to_vertices_in_cluster[&111].is_empty());
}

#[test]
fn equal_distances_go_to_the_first_vertex_of_the_window() {
    let mut clusterer = GraphClusterer::new(10);
    let (clusters, _, roots) = clusterer.clusterize(&vec![100, 120, 110]);
    assert_eq!(roots, vec![100, 120]);
    assert_eq!(clusters[&100], vec![0, 2]);
    assert_eq!(clusters[&120], vec![1]);
}

#[test]
fn window_saturates_at_the_ends_of_the_key_range() {
    let mut clusterer = GraphClusterer::new(10);
    let (clusters, _, roots) = clusterer.clusterize(&vec![3, 0, u32::MAX, u32::MAX - 4]);
    assert_eq!(roots, vec![3, u32::MAX]);
    assert_eq!(clusters[&3], vec![0, 1]);
    assert_eq!(clusters[&u32::MAX], vec![2, 3]);
}

#[test]
fn a_second_run_joins_roots_of_the_first() {
    let mut clusterer = GraphClusterer::new(10);
    clusterer.clusterize(&vec![1000]);
    let (clusters, stats, roots) = clusterer.clusterize(&vec![1004]);
    assert!(roots.is_empty());
    assert_eq!(clusters[&1000], vec![0]);
    assert_eq!(stats.number_of_clusters, 0);
    // The root was opened by the earlier run, so this run has no list for it.
    assert!(stats.distance_to_vertices_in_cluster.is_empty());
}

#[test]
fn repeated_root_key_opens_its_cluster_again() {
    let mut clusterer = GraphClusterer::new(10);
    let (clusters, stats, roots) = clusterer.clusterize(&vec![5, 5]);
    assert_eq!(roots, vec![5, 5]);
    assert_eq!(stats.number_of_clusters, 2);
    assert_eq!(stats.number_of_vertices_in_cluster[&5], 2);
    assert!(stats.distance_to_vertices_in_cluster[&5].is_empty());
    assert_eq!(clusters[&5], vec![0, 1]);
}

#[test]
fn zero_reach_clusters_only_equal_keys() {
    let mut clusterer = GraphClusterer::new(0);
    let (clusters, stats, _) = clusterer.clusterize(&vec![7, 8, 7]);
    assert_eq!(clusters[&7], vec![0, 2]);
    assert_eq!(clusters[&8], vec![1]);
    assert_eq!(stats.total_cluster_size, 3);
}

#[test]
fn eq_clusterer_counts_chunks() {
    let clusterer = EqClusterer::default();
    let mut stats = EqStats::new();
    clusterer.update_cluster_stats(&mut stats);
    clusterer.update_cluster_stats(&mut stats);
    assert_eq!(stats.total_cluster_size, 2);
    assert_eq!(stats.number_of_clusters, 0);
    let _wide = EqClusterer::new(2);
}
