use spatial_heatmap::outlier::suppression::{
    OutlierSuppression, RemoveConfig, SuppressionStrategy,
};

#[test]
fn remove_zeroes_counts_above_threshold() {
    let config = RemoveConfig { threshold: 5 };
    let mut cells: Vec<usize> = vec![0, 5, 6, 10, 3];

    config.suppress(&mut cells).unwrap();

    assert_eq!(cells, vec![0, 5, 0, 0, 3]);
}

#[test]
fn remove_keeps_length_and_counts_at_threshold() {
    let config = RemoveConfig { threshold: 200 };
    let mut cells: Vec<usize> = vec![200, 201, 199, 0];

    config.suppress(&mut cells).unwrap();

    assert_eq!(cells.len(), 4);
    assert_eq!(cells, vec![200, 0, 199, 0]);
}

#[test]
fn remove_on_empty_cells_is_a_no_op() {
    let config = RemoveConfig { threshold: 1 };
    let mut cells: Vec<usize> = Vec::new();

    config.suppress(&mut cells).unwrap();

    assert!(cells.is_empty());
}

#[test]
fn strategy_set_is_closed() {
    // every declared variant is constructible; only Removing carries
    // a configuration
    let strategies = vec![
        SuppressionStrategy::Thresholding,
        SuppressionStrategy::Clipping,
        SuppressionStrategy::LogarithmicScaling,
        SuppressionStrategy::Removing(RemoveConfig { threshold: 1 }),
    ];
    assert_eq!(strategies.len(), 4);
}
