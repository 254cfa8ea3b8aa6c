use spatial_heatmap::grid::Grid;
use spatial_heatmap::spatial_heatmap::{Config, CoordinateSystem};
use spatial_heatmap::{ErrorKind, Point, COORD_SCALE};

fn unit_point(x: i64, y: i64) -> Point {
    Point::new(x * COORD_SCALE, y * COORD_SCALE)
}

fn square_config(extent: usize, cell: usize) -> Config {
    let coordinate_system = CoordinateSystem {
        min_x_axis: 0,
        max_x_axis: extent,
        min_y_axis: 0,
        max_y_axis: extent,
    };
    Config::new(coordinate_system, (cell, cell), 30, 30, None)
}

#[test]
fn new_derives_dimensions() {
    let grid = Grid::new(&square_config(30, 3)).unwrap();
    assert_eq!(grid.grid_width, 10);
    assert_eq!(grid.grid_height, 10);
    assert_eq!(grid.cells.len(), 100);
    assert!(grid.cells.iter().all(|&c| c == 0));
}

#[test]
fn new_rejects_zero_cell_size() {
    let coordinate_system = CoordinateSystem {
        min_x_axis: 0,
        max_x_axis: 30,
        min_y_axis: 0,
        max_y_axis: 30,
    };
    let config = Config::new(coordinate_system, (0, 3), 30, 30, None);
    assert!(matches!(Grid::new(&config), Err(ErrorKind::InvalidConfig)));
}

#[test]
fn new_rejects_degenerate_dimensions() {
    // a span smaller than one cell floors to zero cells on that axis
    let grid = Grid::new(&square_config(2, 3));
    assert!(matches!(grid, Err(ErrorKind::InvalidConfig)));
}

#[test]
fn index_point_round_trip() {
    let grid = Grid::new(&square_config(30, 3)).unwrap();
    for y in 0..10 {
        for x in 0..10 {
            let idx = grid.idx_from_point(x, y);
            assert_eq!(grid.point_from_idx(idx), (x, y));
        }
    }
    for idx in 0..100 {
        let (x, y) = grid.point_from_idx(idx);
        assert_eq!(grid.idx_from_point(x, y), idx);
    }
}

#[test]
fn increment_uses_ceiling_not_floor() {
    let mut grid = Grid::new(&square_config(30, 3)).unwrap();
    // 4 / 3 rounds up to cell 2; floor division would give cell 1
    grid.increment_count(&unit_point(4, 4)).unwrap();
    let idx = grid.idx_from_point(2, 2);
    assert_eq!(grid.cells[idx], 1);
    let wrong = grid.idx_from_point(1, 1);
    assert_eq!(grid.cells[wrong], 0);
}

#[test]
fn increment_on_exact_cell_edge() {
    let mut grid = Grid::new(&square_config(30, 3)).unwrap();
    // 6 is an exact multiple of the cell width: the ceiling is the
    // exact quotient 2, not 3 (and not a half-up rounding of 2)
    grid.increment_count(&unit_point(6, 6)).unwrap();
    let idx = grid.idx_from_point(2, 2);
    assert_eq!(grid.cells[idx], 1);
}

#[test]
fn increment_with_fractional_coordinate() {
    let mut grid = Grid::new(&square_config(30, 3)).unwrap();
    // 0.5 of a unit, stored in fixed point: ceil(0.5 / 3) = 1
    let p = Point::new(COORD_SCALE / 2, COORD_SCALE / 2);
    grid.increment_count(&p).unwrap();
    let idx = grid.idx_from_point(1, 1);
    assert_eq!(grid.cells[idx], 1);
}

#[test]
fn increment_recenters_negative_coordinate_systems() {
    let coordinate_system = CoordinateSystem {
        min_x_axis: -180,
        max_x_axis: 180,
        min_y_axis: -90,
        max_y_axis: 90,
    };
    let config = Config::new(coordinate_system, (2, 2), 720, 360, None);
    let mut grid = Grid::new(&config).unwrap();
    assert_eq!(grid.grid_width, 180);
    assert_eq!(grid.grid_height, 90);
    grid.increment_count(&unit_point(1, 1)).unwrap();
    // ceil(1 / 2) = 1, re-centered by (90, 45)
    let idx = grid.idx_from_point(91, 46);
    assert_eq!(grid.cells[idx], 1);
}

#[test]
fn increment_rejects_out_of_bounds_points() {
    let mut grid = Grid::new(&square_config(30, 3)).unwrap();
    let r = grid.increment_count(&unit_point(40, 1));
    assert!(matches!(r, Err(ErrorKind::OutOfBounds)));
    assert!(grid.cells.iter().all(|&c| c == 0));
}

#[test]
fn max_value_of_all_zero_grid_is_zero() {
    let grid = Grid::new(&square_config(30, 3)).unwrap();
    assert_eq!(grid.evaluate_max_value().unwrap(), 0);
}

#[test]
fn max_value_finds_largest_counter() {
    let mut grid = Grid::new(&square_config(30, 3)).unwrap();
    for _ in 0..3 {
        grid.increment_count(&unit_point(1, 1)).unwrap();
    }
    grid.increment_count(&unit_point(7, 7)).unwrap();
    assert_eq!(grid.evaluate_max_value().unwrap(), 3);
}

#[test]
fn max_value_fails_on_zero_cell_grid() {
    let grid = Grid {
        grid_width: 0,
        grid_height: 0,
        cells: Vec::new(),
        cell_size: (1, 1),
        has_negative_values: false,
    };
    assert!(matches!(grid.evaluate_max_value(), Err(ErrorKind::EmptyGrid)));
}
