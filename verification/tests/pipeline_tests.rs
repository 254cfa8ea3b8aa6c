use spatial_heatmap::grid::Grid;
use spatial_heatmap::outlier::suppression::{RemoveConfig, SuppressionStrategy};
use spatial_heatmap::spatial_heatmap::{
    create_heatmap, get_intensity_grid, suppress_outliers, Config, CoordinateSystem,
};
use spatial_heatmap::{ErrorKind, Point, COORD_SCALE};

fn unit_point(x: i64, y: i64) -> Point {
    Point::new(x * COORD_SCALE, y * COORD_SCALE)
}

fn square_config(strategy: Option<SuppressionStrategy>) -> Config {
    let coordinate_system = CoordinateSystem {
        min_x_axis: 0,
        max_x_axis: 30,
        min_y_axis: 0,
        max_y_axis: 30,
    };
    Config::new(coordinate_system, (3, 3), 30, 30, strategy)
}

fn sample_points() -> Vec<Point> {
    vec![
        unit_point(1, 1),
        unit_point(2, 2),
        unit_point(3, 3),
        unit_point(4, 4),
        unit_point(5, 5),
    ]
}

#[test]
fn intensity_grid_accumulates_counts() {
    // (1,1), (2,2), (3,3) all bin to cell (1,1); (4,4) and (5,5) to (2,2)
    let config = square_config(None);
    let grid = get_intensity_grid(&sample_points(), &config).unwrap();

    let dense = grid.idx_from_point(1, 1);
    let lighter = grid.idx_from_point(2, 2);
    assert_eq!(grid.cells[dense], 3);
    assert_eq!(grid.cells[lighter], 2);
    assert_eq!(grid.cells.iter().sum::<usize>(), 5);
}

#[test]
fn intensity_grid_is_order_independent() {
    let config = square_config(None);
    let forward = get_intensity_grid(&sample_points(), &config).unwrap();
    let mut reversed_points = sample_points();
    reversed_points.reverse();
    let reversed = get_intensity_grid(&reversed_points, &config).unwrap();

    assert_eq!(forward.cells, reversed.cells);
}

#[test]
fn suppress_outliers_applies_removing_strategy() {
    let strategy = Some(SuppressionStrategy::Removing(RemoveConfig { threshold: 2 }));
    let config = square_config(None);
    let mut grid = get_intensity_grid(&sample_points(), &config).unwrap();

    suppress_outliers(&mut grid, &strategy).unwrap();

    let dense = grid.idx_from_point(1, 1);
    let lighter = grid.idx_from_point(2, 2);
    assert_eq!(grid.cells[dense], 0);
    assert_eq!(grid.cells[lighter], 2);
}

#[test]
fn suppress_outliers_without_strategy_changes_nothing() {
    let config = square_config(None);
    let mut grid = get_intensity_grid(&sample_points(), &config).unwrap();
    let before = grid.cells.clone();

    suppress_outliers(&mut grid, &None).unwrap();

    assert_eq!(grid.cells, before);
}

#[test]
fn suppress_outliers_rejects_undefined_strategies() {
    let config = square_config(None);
    let mut grid = get_intensity_grid(&sample_points(), &config).unwrap();
    let before = grid.cells.clone();

    for strategy in [
        SuppressionStrategy::Thresholding,
        SuppressionStrategy::Clipping,
        SuppressionStrategy::LogarithmicScaling,
    ] {
        let r = suppress_outliers(&mut grid, &Some(strategy));
        assert!(matches!(r, Err(ErrorKind::UnsupportedStrategy)));
        assert_eq!(grid.cells, before);
    }
}

#[test]
fn create_heatmap_runs_whole_pipeline() {
    let strategy = Some(SuppressionStrategy::Removing(RemoveConfig { threshold: 2 }));
    let config = square_config(strategy);

    let (grid, clusters) = create_heatmap(&sample_points(), config).unwrap();

    // the dense cell was suppressed, the lighter one kept
    let dense = grid.idx_from_point(1, 1);
    let lighter = grid.idx_from_point(2, 2);
    assert_eq!(grid.cells[dense], 0);
    assert_eq!(grid.cells[lighter], 2);
    // one occupied cell alone cannot reach the pipeline's minimum
    // neighbourhood size of five, so it stays noise
    assert!(clusters.entries.is_empty());
}

#[test]
fn create_heatmap_clusters_adjacent_occupied_cells() {
    // five occupied cells on a diagonal, pairwise within distance 5:
    // cells (1,1) through (5,5) from points in distinct grid cells
    let points: Vec<Point> = (1..=5).map(|c| unit_point(3 * c - 1, 3 * c - 1)).collect();
    let config = square_config(None);

    let (grid, clusters) = create_heatmap(&points, config).unwrap();

    assert_eq!(grid.evaluate_max_value().unwrap(), 1);
    assert_eq!(clusters.entries.len(), 1);
    // cell (1,1) is too far from (5,5) to be core itself, so the
    // first core cell is index 1; index 0 starts as provisional noise
    // and is reclassified as a border member of that cluster
    assert_eq!(clusters.entries[0].0, 1);
    assert_eq!(clusters.entries[0].1, vec![0, 1, 2, 3, 4]);
}

#[test]
fn create_heatmap_rejects_invalid_config() {
    let coordinate_system = CoordinateSystem {
        min_x_axis: 0,
        max_x_axis: 30,
        min_y_axis: 0,
        max_y_axis: 30,
    };
    let config = Config::new(coordinate_system, (0, 3), 30, 30, None);
    let r = create_heatmap(&sample_points(), config);
    assert!(matches!(r, Err(ErrorKind::InvalidConfig)));
}

#[test]
fn create_heatmap_rejects_out_of_bounds_points() {
    let config = square_config(None);
    let points = vec![unit_point(1, 1), unit_point(40, 1)];
    let r = create_heatmap(&points, config);
    assert!(matches!(r, Err(ErrorKind::OutOfBounds)));
}

#[test]
fn create_heatmap_rejects_undefined_strategy() {
    let config = square_config(Some(SuppressionStrategy::Clipping));
    let r = create_heatmap(&sample_points(), config);
    assert!(matches!(r, Err(ErrorKind::UnsupportedStrategy)));
}

#[test]
fn config_derives_negative_axis_flag() {
    let coordinate_system = CoordinateSystem {
        min_x_axis: -180,
        max_x_axis: 180,
        min_y_axis: -90,
        max_y_axis: 90,
    };
    let negative = Config::new(coordinate_system, (2, 2), 720, 360, None);
    assert!(negative.has_negative_values);

    let positive_only = square_config(None);
    assert!(!positive_only.has_negative_values);
}

#[test]
fn heatmap_over_negative_coordinate_system() {
    let coordinate_system = CoordinateSystem {
        min_x_axis: -180,
        max_x_axis: 180,
        min_y_axis: -90,
        max_y_axis: 90,
    };
    let config = Config::new(coordinate_system, (2, 2), 720, 360, None);
    let points = vec![unit_point(-3, -3), unit_point(1, 1)];

    let (grid, _clusters) = create_heatmap(&points, config).unwrap();

    // ceil(-3 / 2) = -1 re-centered by (90, 45); ceil(1 / 2) = 1
    let west = grid.idx_from_point(89, 44);
    let east = grid.idx_from_point(91, 46);
    assert_eq!(grid.cells[west], 1);
    assert_eq!(grid.cells[east], 1);
    let empty = Grid::new(&config).unwrap();
    assert_eq!(empty.cells.iter().sum::<usize>(), 0);
}
