use spatial_heatmap::clustering::dbscan::cluster;
use spatial_heatmap::ErrorKind;

fn scenario_points() -> Vec<(usize, usize)> {
    vec![
        (1, 1),
        (2, 2),
        (3, 3),
        (8, 8),
        (12, 12),
        (24, 24),
        (26, 26),
        (27, 27),
    ]
}

#[test]
fn should_cluster_data() {
    let data_set = scenario_points();

    let result = cluster(data_set, 3, 3).unwrap();

    let expected: Vec<Vec<usize>> = vec![vec![0, 1, 2], vec![5, 6, 7]];
    for (_, members) in result.entries {
        assert!(expected
            .iter()
            .any(|expected_cluster| *expected_cluster == members));
    }
}

#[test]
fn scenario_two_clusters_with_noise() {
    let result = cluster(scenario_points(), 3, 3).unwrap();

    assert_eq!(result.entries.len(), 2);
    assert_eq!(result.entries[0].0, 0);
    assert_eq!(result.entries[0].1, vec![0, 1, 2]);
    assert_eq!(result.entries[1].0, 6);
    assert_eq!(result.entries[1].1, vec![5, 6, 7]);
    // indices 3 and 4 are noise: they appear in no cluster
    for (_, members) in &result.entries {
        assert!(!members.contains(&3));
        assert!(!members.contains(&4));
    }
}

#[test]
fn dense_blob_forms_one_cluster_with_every_point() {
    let data_set = vec![(0, 0), (1, 1), (2, 2), (3, 3)];

    let result = cluster(data_set, 10, 4).unwrap();

    assert_eq!(result.entries.len(), 1);
    assert_eq!(result.entries[0].0, 0);
    assert_eq!(result.entries[0].1, vec![0, 1, 2, 3]);
}

#[test]
fn sparse_points_yield_no_clusters() {
    let data_set = vec![(0, 0), (10, 10), (20, 20)];

    let result = cluster(data_set, 3, 2).unwrap();

    assert!(result.entries.is_empty());
}

#[test]
fn repeated_runs_are_identical() {
    let first = cluster(scenario_points(), 3, 3).unwrap();
    let second = cluster(scenario_points(), 3, 3).unwrap();

    assert_eq!(first.entries, second.entries);
}

#[test]
fn empty_input_yields_empty_result() {
    let result = cluster(Vec::new(), 3, 3).unwrap();
    assert!(result.entries.is_empty());
}

#[test]
fn duplicate_coordinates_are_distinct_indices() {
    let data_set = vec![(5, 5), (5, 5), (5, 5)];

    let result = cluster(data_set, 1, 3).unwrap();

    assert_eq!(result.entries.len(), 1);
    assert_eq!(result.entries[0].0, 0);
    assert_eq!(result.entries[0].1, vec![0, 1, 2]);
}

#[test]
fn negative_radius_is_rejected() {
    let r = cluster(vec![(1, 1)], -1, 3);
    assert!(matches!(r, Err(ErrorKind::InvalidParameter)));
}

#[test]
fn zero_min_pts_is_rejected() {
    let r = cluster(vec![(1, 1)], 3, 0);
    assert!(matches!(r, Err(ErrorKind::InvalidParameter)));
}

#[test]
fn distance_is_euclidean_not_chebyshev() {
    // (0,0) and (3,4) lie at Euclidean distance exactly 5
    let data_set = vec![(0, 0), (3, 4)];

    let within = cluster(data_set.clone(), 5, 2).unwrap();
    assert_eq!(within.entries.len(), 1);
    assert_eq!(within.entries[0].1, vec![0, 1]);

    let beyond = cluster(data_set, 4, 2).unwrap();
    assert!(beyond.entries.is_empty());
}
