//! The spatial aggregation grid: fixed-size cells, one counter per
//! cell, with an exact coordinate-to-cell and cell-to-index mapping.

use vstd::prelude::*;

verus! {

use vstd::arithmetic::div_mod::{
    lemma_fundamental_div_mod,
    lemma_fundamental_div_mod_converse,
    lemma_multiply_divide_lt,
};
use crate::{ErrorKind, Point, COORD_SCALE};
use crate::spatial_heatmap::Config;

/// Ceiling division: the least integer no smaller than the exact
/// quotient `a / b`, for positive `b`.
pub open spec fn ceil_div(a: int, b: int) -> int {
    if a % b == 0 {
        a / b
    } else {
        a / b + 1
    }
}

/// `ceil_div` is exactly the ceiling: `r` is the least integer with
/// `b * r >= a`.
pub proof fn lemma_ceil_div_is_ceiling(a: int, b: int)
    requires
        b >= 1,
    ensures
        b * ceil_div(a, b) >= a,
        b * (ceil_div(a, b) - 1) < a,
{
    lemma_fundamental_div_mod(a, b);
    let q = a / b;
    let r = a % b;
    assert(b * (q + 1) == b * q + b) by (nonlinear_arith);
    assert(b * (q - 1) == b * q - b) by (nonlinear_arith);
}

/// On an exact multiple of the divisor the ceiling is the exact
/// quotient: a coordinate lying exactly on a cell edge is mapped
/// without any rounding.
pub proof fn lemma_ceil_div_exact(k: int, b: int)
    requires
        b >= 1,
    ensures
        ceil_div(k * b, b) == k,
{
    lemma_fundamental_div_mod_converse(k * b, b, k, 0);
}

/// Exact ceiling of `a / b`, computed in integer arithmetic.
fn ceil_div_i64(a: i64, b: i128) -> (r: i128)
    requires
        1 <= b,
    ensures
        r == ceil_div(a as int, b as int),
        -0x8000_0000_0000_0000 <= r <= 0x8000_0000_0000_0000,
{
    if a >= 0 {
        let ua = a as u128;
        let ub = b as u128;
        let q = ua / ub;
        let rem = ua % ub;
        assert(q <= ua) by {
            vstd::arithmetic::div_mod::lemma_div_nonincreasing(ua as int, ub as int);
        }
        if rem > 0 {
            (q + 1) as i128
        } else {
            q as i128
        }
    } else {
        let na = (-(a as i128)) as u128;
        let ub = b as u128;
        let q = na / ub;
        assert(q <= na) by {
            vstd::arithmetic::div_mod::lemma_div_nonincreasing(na as int, ub as int);
        }
        proof {
            lemma_fundamental_div_mod(a as int, b as int);
            let qa = (a as int) / (b as int);
            let ra = (a as int) % (b as int);
            if ra == 0 {
                assert(na as int == b * (-qa) + 0) by (nonlinear_arith)
                    requires
                        a as int == b * qa,
                        na as int == -(a as int),
                ;
                lemma_fundamental_div_mod_converse(na as int, b as int, -qa, 0);
            } else {
                assert(na as int == b * (-qa - 1) + (b - ra)) by (nonlinear_arith)
                    requires
                        a as int == b * qa + ra,
                        na as int == -(a as int),
                ;
                lemma_fundamental_div_mod_converse(na as int, b as int, -qa - 1, b - ra);
            }
        }
        -(q as i128)
    }
}

/// Absolute value of a mathematical integer.
pub open spec fn spec_abs(x: int) -> int {
    if x < 0 {
        -x
    } else {
        x
    }
}

/// Grid width derived from the configured axis bounds and cell width
/// (integer division, floor).
pub open spec fn spec_grid_width(config: Config) -> int {
    (spec_abs(config.coordinate_system.min_x_axis as int)
        + config.coordinate_system.max_x_axis as int) / (config.cell_size.0 as int)
}

/// Grid height derived from the configured axis bounds and cell
/// height (integer division, floor).
pub open spec fn spec_grid_height(config: Config) -> int {
    (spec_abs(config.coordinate_system.min_y_axis as int)
        + config.coordinate_system.max_y_axis as int) / (config.cell_size.1 as int)
}

/// A configuration the grid constructor rejects: a zero cell extent,
/// a zero derived dimension, or a grid too large to allocate.
pub open spec fn spec_config_degenerate(config: Config) -> bool {
    ||| config.cell_size.0 == 0
    ||| config.cell_size.1 == 0
    ||| spec_grid_width(config) == 0
    ||| spec_grid_height(config) == 0
    ||| spec_grid_width(config) * spec_grid_height(config) > usize::MAX as int
}

/// Flat index of the cell at coordinate `(x, y)` in row-major order.
pub open spec fn spec_idx_from_point(grid_width: int, x: int, y: int) -> int {
    y * grid_width + x
}

/// Cell coordinate of the flat index `idx` in row-major order.
pub open spec fn spec_point_from_idx(grid_width: int, idx: int) -> (int, int) {
    (idx % grid_width, idx / grid_width)
}

/// Law: on an in-range cell coordinate, mapping to the flat index and
/// back is the identity; on an in-range flat index, mapping to the
/// cell coordinate and back is the identity as well.
pub proof fn lemma_point_idx_bijection(grid_width: int, grid_height: int, x: int, y: int, idx: int)
    requires
        1 <= grid_width,
        1 <= grid_height,
        0 <= x < grid_width,
        0 <= y < grid_height,
        0 <= idx < grid_width * grid_height,
    ensures
        spec_point_from_idx(grid_width, spec_idx_from_point(grid_width, x, y)) == (x, y),
        spec_idx_from_point(
            grid_width,
            spec_point_from_idx(grid_width, idx).0,
            spec_point_from_idx(grid_width, idx).1,
        ) == idx,
        0 <= spec_idx_from_point(grid_width, x, y) < grid_width * grid_height,
        0 <= spec_point_from_idx(grid_width, idx).0 < grid_width,
        0 <= spec_point_from_idx(grid_width, idx).1 < grid_height,
{
    lemma_fundamental_div_mod_converse(y * grid_width + x, grid_width, y, x);
    lemma_fundamental_div_mod(idx, grid_width);
    assert(grid_width * (idx / grid_width) == (idx / grid_width) * grid_width)
        by (nonlinear_arith);
    lemma_multiply_divide_lt(idx, grid_width, grid_height);
    vstd::arithmetic::div_mod::lemma_mod_division_less_than_divisor(idx, grid_width);
    vstd::arithmetic::div_mod::lemma_div_pos_is_pos(idx, grid_width);
    assert(y * grid_width + x < grid_width * grid_height) by (nonlinear_arith)
        requires
            0 <= x < grid_width,
            0 <= y <= grid_height - 1,
            1 <= grid_width,
    ;
    assert(0 <= y * grid_width) by (nonlinear_arith)
        requires
            0 <= y,
            0 <= grid_width,
    ;
}

/// The flat index of an in-range cell coordinate is in range.
pub proof fn lemma_idx_in_bounds(grid_width: int, grid_height: int, x: int, y: int)
    requires
        1 <= grid_width,
        1 <= grid_height,
        0 <= x < grid_width,
        0 <= y < grid_height,
    ensures
        0 <= spec_idx_from_point(grid_width, x, y) < grid_width * grid_height,
{
    assert(0 <= y * grid_width + x < grid_width * grid_height) by (nonlinear_arith)
        requires
            0 <= x < grid_width,
            0 <= y <= grid_height - 1,
            1 <= grid_width,
    ;
}

/// Distinct in-range cell coordinates have distinct flat indices.
pub proof fn lemma_idx_injective(grid_width: int, x1: int, y1: int, x2: int, y2: int)
    requires
        1 <= grid_width,
        0 <= x1 < grid_width,
        0 <= x2 < grid_width,
        0 <= y1,
        0 <= y2,
        spec_idx_from_point(grid_width, x1, y1) == spec_idx_from_point(grid_width, x2, y2),
    ensures
        x1 == x2 && y1 == y2,
{
    lemma_fundamental_div_mod_converse(y1 * grid_width + x1, grid_width, y1, x1);
    lemma_fundamental_div_mod_converse(y2 * grid_width + x2, grid_width, y2, x2);
}

/// Binning depends only on the grid's shape, not on its counters.
pub proof fn lemma_hits_same_shape(g1: Grid, g2: Grid, points: Seq<Point>, cell: (int, int))
    requires
        g1.cell_size == g2.cell_size,
        g1.has_negative_values == g2.has_negative_values,
        g1.grid_width == g2.grid_width,
        g1.grid_height == g2.grid_height,
    ensures
        g1.spec_hits(points, cell) == g2.spec_hits(points, cell),
    decreases points.len(),
{
    if points.len() > 0 {
        lemma_hits_same_shape(g1, g2, points.drop_last(), cell);
    }
}

/// A cell cannot be hit more often than there are points.
pub proof fn lemma_hits_le_len(g: Grid, points: Seq<Point>, cell: (int, int))
    ensures
        g.spec_hits(points, cell) <= points.len(),
    decreases points.len(),
{
    if points.len() > 0 {
        lemma_hits_le_len(g, points.drop_last(), cell);
    }
}

/// Removing one point removes exactly its own contribution to a
/// cell's count.
proof fn lemma_hits_remove(g: Grid, points: Seq<Point>, j: int, cell: (int, int))
    requires
        0 <= j < points.len(),
    ensures
        g.spec_hits(points, cell) == g.spec_hits(points.remove(j), cell)
            + (if g.spec_target_cell(points[j]) == cell {
                1nat
            } else {
                0nat
            }),
    decreases points.len(),
{
    if j == points.len() - 1 {
        assert(points.remove(j) =~= points.drop_last());
    } else {
        assert(points.remove(j).drop_last() =~= points.drop_last().remove(j));
        assert(points.remove(j).last() == points.last());
        lemma_hits_remove(g, points.drop_last(), j, cell);
    }
}

/// Law: accumulation is order independent. Two point sequences that
/// hold the same multiset of points give every cell exactly the same
/// count, whatever order the points arrive in.
pub proof fn lemma_accumulation_order_independent(
    g: Grid,
    s1: Seq<Point>,
    s2: Seq<Point>,
    cell: (int, int),
)
    requires
        s1.to_multiset() == s2.to_multiset(),
    ensures
        g.spec_hits(s1, cell) == g.spec_hits(s2, cell),
    decreases s1.len(),
{
    broadcast use vstd::seq_lib::group_to_multiset_ensures;

    if s1.len() == 0 {
        assert(s2.to_multiset().len() == 0);
        assert(s2.len() == 0);
    } else {
        let x = s1.last();
        let s1p = s1.drop_last();
        assert(s1.contains(x));
        assert(s1.to_multiset().count(x) > 0);
        assert(s2.to_multiset().count(x) > 0);
        assert(s2.contains(x));
        let j = choose|j: int| 0 <= j < s2.len() && s2[j] == x;
        let s2p = s2.remove(j);
        assert(s1.remove(s1.len() - 1) =~= s1p);
        assert(s1p.to_multiset() == s1.to_multiset().remove(x));
        assert(s2p.to_multiset() == s2.to_multiset().remove(x));
        lemma_accumulation_order_independent(g, s1p, s2p, cell);
        lemma_hits_remove(g, s2, j, cell);
    }
}

/// Law: a coordinate lying exactly on a cell edge — an exact multiple
/// of the cell width — is mapped by the ceiling rule to exactly that
/// multiple, with no rounding in either direction.
pub proof fn lemma_boundary_exact_multiple(g: Grid, p: Point, kx: int)
    requires
        g.cell_size.0 >= 1,
        p.x as int == kx * (COORD_SCALE * g.cell_size.0),
    ensures
        g.spec_raw_cell_x(p) == kx,
{
    lemma_ceil_div_exact(kx, COORD_SCALE * g.cell_size.0);
}

/// The aggregation grid: `grid_width * grid_height` cell counters in
/// row-major order, plus the parameters the binning step needs.
pub struct Grid {
    pub grid_width: usize,
    pub grid_height: usize,
    pub cells: Vec<usize>,
    pub cell_size: (usize, usize),
    pub has_negative_values: bool,
}

impl Grid {
    /// Structural invariant: positive cell extents and dimensions, and
    /// exactly one counter per cell.
    pub open spec fn well_formed(self) -> bool {
        &&& self.cell_size.0 >= 1
        &&& self.cell_size.1 >= 1
        &&& self.grid_width >= 1
        &&& self.grid_height >= 1
        &&& self.cells@.len() == self.grid_width * self.grid_height
    }

    /// Cell column a point falls in, before the negative-axis offset:
    /// the ceiling of the coordinate over the cell width.
    pub open spec fn spec_raw_cell_x(self, p: Point) -> int {
        ceil_div(p.x as int, COORD_SCALE * self.cell_size.0)
    }

    /// Cell row a point falls in, before the negative-axis offset.
    pub open spec fn spec_raw_cell_y(self, p: Point) -> int {
        ceil_div(p.y as int, COORD_SCALE * self.cell_size.1)
    }

    /// Cell column a point is binned into. When the coordinate system
    /// has negative bounds the origin is re-centered at the middle of
    /// the grid.
    pub open spec fn spec_target_x(self, p: Point) -> int {
        self.spec_raw_cell_x(p) + if self.has_negative_values {
            self.grid_width as int / 2
        } else {
            0
        }
    }

    /// Cell row a point is binned into.
    pub open spec fn spec_target_y(self, p: Point) -> int {
        self.spec_raw_cell_y(p) + if self.has_negative_values {
            self.grid_height as int / 2
        } else {
            0
        }
    }

    /// Whether a point's cell lies inside the allocated grid.
    pub open spec fn spec_target_in_range(self, p: Point) -> bool {
        &&& 0 <= self.spec_target_x(p) < self.grid_width
        &&& 0 <= self.spec_target_y(p) < self.grid_height
    }

    /// Flat index of the cell a point is binned into.
    pub open spec fn spec_target_idx(self, p: Point) -> int {
        spec_idx_from_point(self.grid_width as int, self.spec_target_x(p), self.spec_target_y(p))
    }

    /// The (column, row) cell a point is binned into.
    pub open spec fn spec_target_cell(self, p: Point) -> (int, int) {
        (self.spec_target_x(p), self.spec_target_y(p))
    }

    /// How many of the given points this grid's shape bins into
    /// `cell`.
    pub open spec fn spec_hits(self, points: Seq<Point>, cell: (int, int)) -> nat
        decreases points.len(),
    {
        if points.len() == 0 {
            0
        } else {
            self.spec_hits(points.drop_last(), cell) + (if self.spec_target_cell(points.last())
                == cell {
                1nat
            } else {
                0nat
            })
        }
    }

    /// Allocates the zeroed counters for `config`, or rejects a
    /// configuration with a zero cell extent, a zero derived
    /// dimension, or more cells than the machine can index.
    pub fn new(config: &Config) -> (r: Result<Grid, ErrorKind>)
        ensures
            match r {
                Ok(g) => {
                    &&& !spec_config_degenerate(*config)
                    &&& g.well_formed()
                    &&& g.grid_width == spec_grid_width(*config)
                    &&& g.grid_height == spec_grid_height(*config)
                    &&& g.cell_size == config.cell_size
                    &&& g.has_negative_values == config.has_negative_values
                    &&& forall|i: int| 0 <= i < g.cells@.len() ==> g.cells@[i] == 0
                },
                Err(e) => e == ErrorKind::InvalidConfig && spec_config_degenerate(*config),
            },
    {
        if config.cell_size.0 == 0 || config.cell_size.1 == 0 {
            return Err(ErrorKind::InvalidConfig);
        }
        let cs = &config.coordinate_system;
        let abs_min_x: u128 = if cs.min_x_axis < 0 {
            (-(cs.min_x_axis as i128)) as u128
        } else {
            cs.min_x_axis as u128
        };
        let abs_min_y: u128 = if cs.min_y_axis < 0 {
            (-(cs.min_y_axis as i128)) as u128
        } else {
            cs.min_y_axis as u128
        };
        let span_x = abs_min_x + cs.max_x_axis as u128;
        let span_y = abs_min_y + cs.max_y_axis as u128;
        let gw = span_x / (config.cell_size.0 as u128);
        let gh = span_y / (config.cell_size.1 as u128);
        if gw == 0 || gh == 0 {
            return Err(ErrorKind::InvalidConfig);
        }
        if gw > usize::MAX as u128 || gh > usize::MAX as u128 {
            proof {
                assert(spec_grid_width(*config) * spec_grid_height(*config) > usize::MAX as int)
                    by (nonlinear_arith)
                    requires
                        spec_grid_width(*config) == gw as int,
                        spec_grid_height(*config) == gh as int,
                        gw as int >= 1,
                        gh as int >= 1,
                        gw > usize::MAX as u128 || gh > usize::MAX as u128,
                ;
            }
            return Err(ErrorKind::InvalidConfig);
        }
        proof {
            assert(gw as int * gh as int <= u64::MAX as int * u64::MAX as int)
                by (nonlinear_arith)
                requires
                    0 <= gw as int <= u64::MAX as int,
                    0 <= gh as int <= u64::MAX as int,
            ;
        }
        let total = gw * gh;
        if total > usize::MAX as u128 {
            return Err(ErrorKind::InvalidConfig);
        }
        let cells = vec![0usize; total as usize];
        Ok(Grid {
            grid_width: gw as usize,
            grid_height: gh as usize,
            cells,
            cell_size: config.cell_size,
            has_negative_values: config.has_negative_values,
        })
    }

    /// Flat index of the in-range cell coordinate `(x, y)`.
    pub fn idx_from_point(&self, x: usize, y: usize) -> (idx: usize)
        requires
            self.well_formed(),
            x < self.grid_width,
            y < self.grid_height,
        ensures
            idx == spec_idx_from_point(self.grid_width as int, x as int, y as int),
            idx < self.cells@.len(),
    {
        proof {
            assert(y * self.grid_width + x < self.grid_width * self.grid_height)
                by (nonlinear_arith)
                requires
                    0 <= x < self.grid_width,
                    0 <= y <= self.grid_height as int - 1,
                    1 <= self.grid_width,
            ;
            vstd::std_specs::vec::axiom_spec_len(&self.cells);
            assert(self.cells@.len() <= usize::MAX);
        }
        y * self.grid_width + x
    }

    /// Cell coordinate of the in-range flat index `index`.
    pub fn point_from_idx(&self, index: usize) -> (p: (usize, usize))
        requires
            self.well_formed(),
            index < self.cells@.len(),
        ensures
            (p.0 as int, p.1 as int) == spec_point_from_idx(self.grid_width as int, index as int),
            p.0 < self.grid_width,
            p.1 < self.grid_height,
            spec_idx_from_point(self.grid_width as int, p.0 as int, p.1 as int) == index,
    {
        proof {
            lemma_point_idx_bijection(
                self.grid_width as int,
                self.grid_height as int,
                0,
                0,
                index as int,
            );
        }
        let x = index % self.grid_width;
        let y = index / self.grid_width;
        (x, y)
    }

    /// The largest cell counter. An all-zero grid has a well-defined
    /// maximum of zero; only a grid with no cells at all is an error.
    pub fn evaluate_max_value(&self) -> (r: Result<usize, ErrorKind>)
        ensures
            match r {
                Ok(m) => {
                    &&& self.cells@.len() > 0
                    &&& forall|i: int| 0 <= i < self.cells@.len() ==> self.cells@[i] <= m
                    &&& self.cells@.contains(m)
                },
                Err(e) => e == ErrorKind::EmptyGrid && self.cells@.len() == 0,
            },
    {
        if self.cells.len() == 0 {
            return Err(ErrorKind::EmptyGrid);
        }
        let mut max: usize = self.cells[0];
        let mut i: usize = 1;
        while i < self.cells.len()
            invariant
                1 <= i <= self.cells@.len(),
                forall|j: int| 0 <= j < i ==> self.cells@[j] <= max,
                exists|j: int| 0 <= j < i && self.cells@[j] == max,
            decreases self.cells@.len() - i,
        {
            if self.cells[i] > max {
                max = self.cells[i];
            }
            i = i + 1;
        }
        Ok(max)
    }

    /// Bins one point: the cell column and row are the ceiling of the
    /// coordinate over the cell extent, re-centered when the
    /// coordinate system has negative bounds, and the matching counter
    /// grows by one. A point whose cell falls outside the grid is
    /// rejected with [`ErrorKind::OutOfBounds`] and the grid is left
    /// unchanged.
    pub fn increment_count(&mut self, point: &Point) -> (r: Result<(), ErrorKind>)
        requires
            old(self).well_formed(),
            old(self).spec_target_in_range(*point)
                ==> old(self).cells@[old(self).spec_target_idx(*point)] < usize::MAX,
        ensures
            final(self).well_formed(),
            final(self).grid_width == old(self).grid_width,
            final(self).grid_height == old(self).grid_height,
            final(self).cell_size == old(self).cell_size,
            final(self).has_negative_values == old(self).has_negative_values,
            if old(self).spec_target_in_range(*point) {
                &&& r is Ok
                &&& final(self).cells@ == old(self).cells@.update(
                    old(self).spec_target_idx(*point),
                    (old(self).cells@[old(self).spec_target_idx(*point)] + 1) as usize,
                )
            } else {
                &&& r == Err::<(), ErrorKind>(ErrorKind::OutOfBounds)
                &&& final(self).cells@ == old(self).cells@
            },
    {
        let den_x: i128 = (COORD_SCALE as i128) * (self.cell_size.0 as i128);
        let den_y: i128 = (COORD_SCALE as i128) * (self.cell_size.1 as i128);
        let mut cell_x: i128 = ceil_div_i64(point.x, den_x);
        let mut cell_y: i128 = ceil_div_i64(point.y, den_y);
        if self.has_negative_values {
            cell_x = cell_x + (self.grid_width / 2) as i128;
            cell_y = cell_y + (self.grid_height / 2) as i128;
        }
        if cell_x < 0 || cell_y < 0 || cell_x >= self.grid_width as i128
            || cell_y >= self.grid_height as i128 {
            return Err(ErrorKind::OutOfBounds);
        }
        let index = self.idx_from_point(cell_x as usize, cell_y as usize);
        let c = self.cells[index];
        self.cells[index] = c + 1;
        Ok(())
    }
}

} // verus!
