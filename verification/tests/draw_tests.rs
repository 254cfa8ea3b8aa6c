use spatial_heatmap::draw::get_pixels_from_cell;
use spatial_heatmap::grid::Grid;
use spatial_heatmap::spatial_heatmap::{Config, CoordinateSystem};

#[test]
fn should_get_pixels_when_providing_index() {
    let coordinate_system = CoordinateSystem {
        min_x_axis: 0,
        max_x_axis: 30,
        min_y_axis: 0,
        max_y_axis: 30,
    };
    let config = Config::new(coordinate_system, (3, 3), 30, 30, None);
    let grid = Grid::new(&config).unwrap();

    // index = coordinate (2,1)
    let pixels = get_pixels_from_cell(&grid, &config, 12);

    // pixels should be (6, 3) to (8, 5) with y = 0 at top
    assert_eq!(
        pixels,
        vec![
            (6, 27),
            (6, 26),
            (6, 25),
            (7, 27),
            (7, 26),
            (7, 25),
            (8, 27),
            (8, 26),
            (8, 25)
        ]
    )
}

#[test]
fn no_pixels_when_image_smaller_than_grid() {
    let coordinate_system = CoordinateSystem {
        min_x_axis: 0,
        max_x_axis: 30,
        min_y_axis: 0,
        max_y_axis: 30,
    };
    // 10x10 grid drawn on a 5x5 image: zero pixels per cell
    let config = Config::new(coordinate_system, (3, 3), 5, 5, None);
    let grid = Grid::new(&config).unwrap();

    let pixels = get_pixels_from_cell(&grid, &config, 12);

    assert!(pixels.is_empty());
}
