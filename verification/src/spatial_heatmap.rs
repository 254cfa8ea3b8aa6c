//! Static configuration of the heatmap pipeline.

use vstd::prelude::*;

verus! {

use crate::clustering::dbscan::{cluster, spec_cluster, ClusterResult};
use crate::grid::{
    ceil_div,
    lemma_hits_same_shape,
    spec_config_degenerate,
    spec_grid_height,
    spec_grid_width,
    spec_idx_from_point,
    Grid,
};
use crate::outlier::suppression::{
    spec_remove_suppressed,
    OutlierSuppression,
    SuppressionStrategy,
};
use crate::{ErrorKind, Point, COORD_SCALE};

/// Inclusive axis bounds of the native coordinate system, in
/// coordinate-system units. A negative lower bound on either axis
/// means the grid must re-center negative input coordinates.
#[derive(Clone, Copy, PartialEq, Eq, Structural, Debug)]
pub struct CoordinateSystem {
    pub min_x_axis: isize,
    pub max_x_axis: usize,
    pub min_y_axis: isize,
    pub max_y_axis: usize,
}

/// Static parameters of one heatmap computation: the coordinate
/// system, the cell size of the aggregation grid, the output image
/// size for rendering, and the optional outlier-suppression pass.
#[derive(Clone, Copy, Debug)]
pub struct Config {
    pub coordinate_system: CoordinateSystem,
    pub cell_size: (usize, usize),
    pub has_negative_values: bool,
    pub image_width: u32,
    pub image_height: u32,
    pub suppression_strategy: Option<SuppressionStrategy>,
}

impl Config {
    /// Collects the parameters and derives the negative-axis flag.
    pub fn new(
        coordinate_system: CoordinateSystem,
        cell_size: (usize, usize),
        image_width: u32,
        image_height: u32,
        suppression_strategy: Option<SuppressionStrategy>,
    ) -> (c: Config)
        ensures
            c.coordinate_system == coordinate_system,
            c.cell_size == cell_size,
            c.image_width == image_width,
            c.image_height == image_height,
            c.suppression_strategy == suppression_strategy,
            c.has_negative_values == (coordinate_system.min_x_axis < 0
                || coordinate_system.min_y_axis < 0),
    {
        let has_negative_values = coordinate_system.min_x_axis < 0
            || coordinate_system.min_y_axis < 0;
        Config {
            coordinate_system,
            has_negative_values,
            cell_size,
            image_width,
            image_height,
            suppression_strategy,
        }
    }
}

/// Clustering radius used by the pipeline, in grid cells.
pub const CLUSTER_EPS: i64 = 5;

/// Minimum neighbourhood size for a core cell in the pipeline.
pub const CLUSTER_MIN_PTS: usize = 5;

/// Cell column a point is binned into under `config`, exactly as the
/// grid derived from that configuration computes it.
pub open spec fn spec_cfg_target_x(config: Config, p: Point) -> int {
    ceil_div(p.x as int, COORD_SCALE * config.cell_size.0) + if config.has_negative_values {
        spec_grid_width(config) / 2
    } else {
        0
    }
}

/// Cell row a point is binned into under `config`.
pub open spec fn spec_cfg_target_y(config: Config, p: Point) -> int {
    ceil_div(p.y as int, COORD_SCALE * config.cell_size.1) + if config.has_negative_values {
        spec_grid_height(config) / 2
    } else {
        0
    }
}

/// Whether a point's cell lies inside the grid derived from `config`.
pub open spec fn spec_cfg_target_in_range(config: Config, p: Point) -> bool {
    &&& 0 <= spec_cfg_target_x(config, p) < spec_grid_width(config)
    &&& 0 <= spec_cfg_target_y(config, p) < spec_grid_height(config)
}

/// A cell's count after the configured suppression pass ran over the
/// raw count.
pub open spec fn spec_suppressed_count(strategy: Option<SuppressionStrategy>, raw: nat) -> nat {
    match strategy {
        Some(SuppressionStrategy::Removing(c)) => if raw > c.threshold {
            0nat
        } else {
            raw
        },
        _ => raw,
    }
}

/// Coordinates of the occupied cells (count above zero) among the
/// first `k` cells, in ascending flat-index order.
pub open spec fn spec_occupied_upto(cells: Seq<usize>, grid_width: int, k: int) -> Seq<
    (usize, usize),
>
    decreases k,
{
    if k <= 0 {
        Seq::empty()
    } else {
        let rest = spec_occupied_upto(cells, grid_width, k - 1);
        if cells[k - 1] > 0 {
            rest.push(((((k - 1) % grid_width)) as usize, (((k - 1) / grid_width)) as usize))
        } else {
            rest
        }
    }
}

/// Coordinates of all occupied cells, in ascending flat-index order.
pub open spec fn spec_occupied(cells: Seq<usize>, grid_width: int) -> Seq<(usize, usize)> {
    spec_occupied_upto(cells, grid_width, cells.len() as int)
}

/// Bins every point of the data set into a fresh grid derived from
/// `config`. On success every cell counts exactly the points that
/// fall into it; a point whose cell lies outside the grid rejects the
/// whole data set with [`ErrorKind::OutOfBounds`].
pub fn get_intensity_grid(data_set: &Vec<Point>, config: &Config) -> (r: Result<Grid, ErrorKind>)
    ensures
        match r {
            Ok(g) => {
                &&& !spec_config_degenerate(*config)
                &&& g.well_formed()
                &&& g.grid_width == spec_grid_width(*config)
                &&& g.grid_height == spec_grid_height(*config)
                &&& g.cell_size == config.cell_size
                &&& g.has_negative_values == config.has_negative_values
                &&& forall|t: int|
                    0 <= t < data_set@.len() ==> g.spec_target_in_range(#[trigger] data_set@[t])
                &&& forall|x: int, y: int|
                    0 <= x < g.grid_width && 0 <= y < g.grid_height
                        ==> g.cells@[spec_idx_from_point(g.grid_width as int, x, y)]
                            == g.spec_hits(data_set@, (x, y))
            },
            Err(e) => {
                ||| (e == ErrorKind::InvalidConfig && spec_config_degenerate(*config))
                ||| (e == ErrorKind::OutOfBounds && !spec_config_degenerate(*config)
                    && exists|t: int|
                        0 <= t < data_set@.len() && !spec_cfg_target_in_range(
                            *config,
                            #[trigger] data_set@[t],
                        ))
            },
        },
{
    let mut grid = match Grid::new(config) {
        Ok(g) => g,
        Err(e) => { return Err(e); },
    };
    proof {
        assert(data_set@.take(0) =~= Seq::<Point>::empty());
        assert forall|x: int, y: int|
            0 <= x < grid.grid_width && 0 <= y < grid.grid_height implies grid.cells@[
            spec_idx_from_point(grid.grid_width as int, x, y)] == grid.spec_hits(
            data_set@.take(0),
            (x, y),
        ) by {
            crate::grid::lemma_idx_in_bounds(
                grid.grid_width as int,
                grid.grid_height as int,
                x,
                y,
            );
        }
    }
    let mut t: usize = 0;
    while t < data_set.len()
        invariant
            t <= data_set@.len(),
            grid.well_formed(),
            grid.grid_width == spec_grid_width(*config),
            grid.grid_height == spec_grid_height(*config),
            grid.cell_size == config.cell_size,
            grid.has_negative_values == config.has_negative_values,
            !spec_config_degenerate(*config),
            forall|s: int|
                0 <= s < t ==> grid.spec_target_in_range(#[trigger] data_set@[s]),
            forall|x: int, y: int|
                0 <= x < grid.grid_width && 0 <= y < grid.grid_height
                    ==> grid.cells@[spec_idx_from_point(grid.grid_width as int, x, y)]
                        == grid.spec_hits(data_set@.take(t as int), (x, y)),
        decreases data_set@.len() - t,
    {
        let ghost gprev = grid;
        let p = data_set[t];
        proof {
            if grid.spec_target_in_range(p) {
                let tx = grid.spec_target_x(p);
                let ty = grid.spec_target_y(p);
                crate::grid::lemma_idx_in_bounds(
                    grid.grid_width as int,
                    grid.grid_height as int,
                    tx,
                    ty,
                );
                crate::grid::lemma_hits_le_len(grid, data_set@.take(t as int), (tx, ty));
                assert(grid.cells@[spec_idx_from_point(grid.grid_width as int, tx, ty)]
                    == grid.spec_hits(data_set@.take(t as int), (tx, ty)));
            }
        }
        match grid.increment_count(&p) {
            Ok(u) => u,
            Err(_) => {
                proof {
                    assert(!spec_cfg_target_in_range(*config, data_set@[t as int]));
                }
                return Err(ErrorKind::OutOfBounds);
            },
        };
        proof {
            let gw = grid.grid_width as int;
            let gh = grid.grid_height as int;
            let prefix = data_set@.take(t as int);
            let longer = data_set@.take(t as int + 1);
            assert(longer =~= prefix.push(data_set@[t as int]));
            assert(longer.drop_last() =~= prefix);
            assert(longer.last() == data_set@[t as int]);
            let tx = gprev.spec_target_x(p);
            let ty = gprev.spec_target_y(p);
            crate::grid::lemma_idx_in_bounds(gw, gh, tx, ty);
            assert forall|x: int, y: int|
                0 <= x < grid.grid_width && 0 <= y < grid.grid_height implies grid.cells@[
                spec_idx_from_point(grid.grid_width as int, x, y)] == grid.spec_hits(
                longer,
                (x, y),
            ) by {
                crate::grid::lemma_idx_in_bounds(gw, gh, x, y);
                assert(gprev.cells@[spec_idx_from_point(gprev.grid_width as int, x, y)]
                    == gprev.spec_hits(prefix, (x, y)));
                lemma_hits_same_shape(gprev, grid, prefix, (x, y));
                lemma_hits_same_shape(gprev, grid, longer, (x, y));
                assert(gprev.spec_hits(longer, (x, y)) == gprev.spec_hits(prefix, (x, y))
                    + (if gprev.spec_target_cell(data_set@[t as int]) == (x, y) {
                        1nat
                    } else {
                        0nat
                    }));
                if spec_idx_from_point(gw, x, y) == spec_idx_from_point(gw, tx, ty) {
                    crate::grid::lemma_idx_injective(gw, x, y, tx, ty);
                }
            }
        }
        t = t + 1;
    }
    proof {
        assert(data_set@.take(data_set@.len() as int) =~= data_set@);
    }
    Ok(grid)
}

/// Applies the configured suppression pass to the grid's counters in
/// place. `None` leaves the grid untouched; a strategy without
/// defined semantics fails with [`ErrorKind::UnsupportedStrategy`]
/// and changes nothing.
pub fn suppress_outliers(grid: &mut Grid, strategy: &Option<SuppressionStrategy>) -> (r: Result<
    (),
    ErrorKind,
>)
    requires
        old(grid).well_formed(),
    ensures
        final(grid).well_formed(),
        final(grid).grid_width == old(grid).grid_width,
        final(grid).grid_height == old(grid).grid_height,
        final(grid).cell_size == old(grid).cell_size,
        final(grid).has_negative_values == old(grid).has_negative_values,
        match *strategy {
            None => r is Ok && final(grid).cells@ == old(grid).cells@,
            Some(SuppressionStrategy::Removing(c)) => r is Ok && final(grid).cells@
                == spec_remove_suppressed(old(grid).cells@, c.threshold),
            Some(_) => r == Err::<(), ErrorKind>(ErrorKind::UnsupportedStrategy)
                && final(grid).cells@ == old(grid).cells@,
        },
{
    match strategy {
        None => Ok(()),
        Some(SuppressionStrategy::Removing(c)) => {
            let res = c.suppress(&mut grid.cells);
            res
        },
        Some(_) => Err(ErrorKind::UnsupportedStrategy),
    }
}

/// Runs the whole pipeline: bins the points into a grid, applies the
/// configured suppression pass, collects the coordinates of the
/// occupied cells and clusters them with radius [`CLUSTER_EPS`] and
/// minimum neighbourhood size [`CLUSTER_MIN_PTS`]. Rendering the
/// returned grid and cluster map is the caller's business.
pub fn create_heatmap(data_set: &Vec<Point>, config: Config) -> (r: Result<
    (Grid, ClusterResult),
    ErrorKind,
>)
    ensures
        match r {
            Ok(out) => {
                &&& !spec_config_degenerate(config)
                &&& out.0.well_formed()
                &&& out.0.grid_width == spec_grid_width(config)
                &&& out.0.grid_height == spec_grid_height(config)
                &&& out.0.cell_size == config.cell_size
                &&& out.0.has_negative_values == config.has_negative_values
                &&& forall|t: int|
                    0 <= t < data_set@.len() ==> out.0.spec_target_in_range(
                        #[trigger] data_set@[t],
                    )
                &&& forall|x: int, y: int|
                    0 <= x < out.0.grid_width && 0 <= y < out.0.grid_height
                        ==> out.0.cells@[spec_idx_from_point(out.0.grid_width as int, x, y)]
                            == spec_suppressed_count(
                            config.suppression_strategy,
                            out.0.spec_hits(data_set@, (x, y)),
                        )
                &&& out.1@ == spec_cluster(
                    spec_occupied(out.0.cells@, out.0.grid_width as int),
                    CLUSTER_EPS as int,
                    CLUSTER_MIN_PTS as int,
                )
            },
            Err(e) => {
                ||| (e == ErrorKind::InvalidConfig && spec_config_degenerate(config))
                ||| (e == ErrorKind::OutOfBounds && !spec_config_degenerate(config)
                    && exists|t: int|
                        0 <= t < data_set@.len() && !spec_cfg_target_in_range(
                            config,
                            #[trigger] data_set@[t],
                        ))
                ||| (e == ErrorKind::UnsupportedStrategy && !spec_config_degenerate(config)
                    && !(config.suppression_strategy matches None)
                    && !(config.suppression_strategy matches Some(
                        SuppressionStrategy::Removing(_),
                    )))
            },
        },
{
    let mut grid = match get_intensity_grid(data_set, &config) {
        Ok(g) => g,
        Err(e) => { return Err(e); },
    };
    let ghost g_pre = grid;
    match suppress_outliers(&mut grid, &config.suppression_strategy) {
        Ok(u) => u,
        Err(e) => { return Err(e); },
    };
    proof {
        assert forall|x: int, y: int|
            0 <= x < grid.grid_width && 0 <= y < grid.grid_height implies grid.cells@[
            spec_idx_from_point(grid.grid_width as int, x, y)] == spec_suppressed_count(
            config.suppression_strategy,
            grid.spec_hits(data_set@, (x, y)),
        ) by {
            lemma_hits_same_shape(g_pre, grid, data_set@, (x, y));
            crate::grid::lemma_idx_in_bounds(
                grid.grid_width as int,
                grid.grid_height as int,
                x,
                y,
            );
        }
        assert forall|t: int|
            0 <= t < data_set@.len() implies grid.spec_target_in_range(
            #[trigger] data_set@[t],
        ) by {
            assert(g_pre.spec_target_in_range(data_set@[t]));
        }
    }
    let n_cells = grid.cells.len();
    let mut occupied: Vec<(usize, usize)> = Vec::new();
    let mut idx: usize = 0;
    while idx < n_cells
        invariant
            idx <= n_cells,
            n_cells == grid.cells@.len(),
            grid.well_formed(),
            occupied@ == spec_occupied_upto(grid.cells@, grid.grid_width as int, idx as int),
        decreases n_cells - idx,
    {
        if grid.cells[idx] > 0 {
            let p = grid.point_from_idx(idx);
            occupied.push(p);
        }
        idx = idx + 1;
    }
    let cluster_data = match cluster(occupied, CLUSTER_EPS, CLUSTER_MIN_PTS) {
        Ok(c) => c,
        Err(e) => {
            proof {
                assert(false);
            }
            return Err(e);
        },
    };
    Ok((grid, cluster_data))
}

} // verus!
