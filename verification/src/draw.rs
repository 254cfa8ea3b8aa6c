//! Pixel geometry for rendering: which image pixels one grid cell
//! covers. Turning pixels into an actual image file is the
//! renderer's business, not this crate's.

use vstd::prelude::*;

verus! {

use vstd::arithmetic::div_mod::{
    lemma_fundamental_div_mod,
    lemma_fundamental_div_mod_converse,
    lemma_mod_division_less_than_divisor,
};
use crate::grid::Grid;
use crate::spatial_heatmap::Config;

/// Horizontal pixels covered by one grid cell.
pub open spec fn spec_pixels_per_cell_x(grid: Grid, config: Config) -> int {
    config.image_width as int / grid.grid_width as int
}

/// Vertical pixels covered by one grid cell.
pub open spec fn spec_pixels_per_cell_y(grid: Grid, config: Config) -> int {
    config.image_height as int / grid.grid_height as int
}

/// The image pixels covered by the cell at flat index `index`,
/// column by column, top pixel first inside each column. The grid's
/// origin sits at the bottom left while the image's sits at the top
/// left, so the cell row is flipped against the image height.
pub open spec fn spec_cell_pixels(grid: Grid, config: Config, index: int) -> Seq<(u32, u32)> {
    let ppx = spec_pixels_per_cell_x(grid, config);
    let ppy = spec_pixels_per_cell_y(grid, config);
    let x = index % grid.grid_width as int;
    let y = index / grid.grid_width as int;
    let sx = x * ppx;
    let sy = config.image_height - y * ppy;
    Seq::new((ppx * ppy) as nat, |t: int| ((sx + t / ppy) as u32, (sy - t % ppy) as u32))
}

/// A cell's pixel span starts past the spans of the cells before it
/// and ends inside the image.
proof fn lemma_pixel_layout(gw: int, iw: int, x: int)
    requires
        1 <= gw,
        0 <= iw,
        0 <= x < gw,
    ensures
        0 <= x * (iw / gw),
        x * (iw / gw) + (iw / gw) <= iw,
{
    let pp = iw / gw;
    lemma_fundamental_div_mod(iw, gw);
    lemma_mod_division_less_than_divisor(iw, gw);
    assert(gw * pp <= iw);
    assert(0 <= pp) by {
        vstd::arithmetic::div_mod::lemma_div_pos_is_pos(iw, gw);
    }
    assert((x + 1) * pp <= gw * pp) by (nonlinear_arith)
        requires
            0 <= pp,
            x + 1 <= gw,
    ;
    assert(0 <= x * pp) by (nonlinear_arith)
        requires
            0 <= x,
            0 <= pp,
    ;
    assert(x * pp + pp == (x + 1) * pp) by (nonlinear_arith);
}

/// The image pixels covered by the cell at flat index `index`:
/// `image_width / grid_width` columns of `image_height / grid_height`
/// pixels each, flipped vertically because the grid's origin is at
/// the bottom left and the image's at the top left.
pub fn get_pixels_from_cell(grid: &Grid, config: &Config, index: usize) -> (pixels: Vec<
    (u32, u32),
>)
    requires
        grid.well_formed(),
        index < grid.cells@.len(),
    ensures
        pixels@ == spec_cell_pixels(*grid, *config, index as int),
{
    let ghost gspec = *grid;
    let ghost cspec = *config;
    let ppx: u32 = ((config.image_width as u64) / (grid.grid_width as u64)) as u32;
    let ppy: u32 = ((config.image_height as u64) / (grid.grid_height as u64)) as u32;
    let (x, y) = grid.point_from_idx(index);
    proof {
        lemma_pixel_layout(grid.grid_width as int, config.image_width as int, x as int);
        lemma_pixel_layout(grid.grid_height as int, config.image_height as int, y as int);
    }
    let sx: u32 = ((x as u64) * (ppx as u64)) as u32;
    let sy: u32 = config.image_height - ((y as u64) * (ppy as u64)) as u32;
    let ghost target = spec_cell_pixels(gspec, cspec, index as int);
    let mut pixels: Vec<(u32, u32)> = Vec::new();
    proof {
        assert(pixels@ =~= target.take(0));
    }
    let mut xi: u32 = 0;
    while xi < ppx
        invariant
            xi <= ppx,
            ppx == spec_pixels_per_cell_x(gspec, cspec),
            ppy == spec_pixels_per_cell_y(gspec, cspec),
            x as int == (index as int) % (gspec.grid_width as int),
            y as int == (index as int) / (gspec.grid_width as int),
            sx == (x as int) * (ppx as int),
            sy == cspec.image_height - (y as int) * (ppy as int),
            sx + ppx <= cspec.image_width,
            ppy <= sy <= cspec.image_height || ppy == 0,
            target == spec_cell_pixels(gspec, cspec, index as int),
            target.len() == (ppx as int) * (ppy as int),
            pixels@ == target.take((xi as int) * (ppy as int)),
        decreases ppx - xi,
    {
        proof {
            assert((xi as int) * (ppy as int) + (ppy as int) == ((xi as int) + 1) * (ppy as int))
                by (nonlinear_arith);
            assert(((xi as int) + 1) * (ppy as int) <= (ppx as int) * (ppy as int))
                by (nonlinear_arith)
                requires
                    xi as int + 1 <= ppx as int,
                    0 <= ppy as int,
            ;
            assert(0 <= (xi as int) * (ppy as int)) by (nonlinear_arith)
                requires
                    0 <= xi as int,
                    0 <= ppy as int,
            ;
        }
        let mut yi: u32 = 0;
        while yi < ppy
            invariant
                yi <= ppy,
                xi < ppx,
                ppx == spec_pixels_per_cell_x(gspec, cspec),
                ppy == spec_pixels_per_cell_y(gspec, cspec),
                x as int == (index as int) % (gspec.grid_width as int),
                y as int == (index as int) / (gspec.grid_width as int),
                sx == (x as int) * (ppx as int),
                sy == cspec.image_height - (y as int) * (ppy as int),
                sx + ppx <= cspec.image_width,
                ppy <= sy <= cspec.image_height || ppy == 0,
                target == spec_cell_pixels(gspec, cspec, index as int),
                target.len() == (ppx as int) * (ppy as int),
                0 <= (xi as int) * (ppy as int),
                (xi as int) * (ppy as int) + (ppy as int) <= target.len(),
                pixels@ == target.take((xi as int) * (ppy as int) + (yi as int)),
            decreases ppy - yi,
        {
            let ghost t = (xi as int) * (ppy as int) + (yi as int);
            proof {
                lemma_fundamental_div_mod_converse(t, ppy as int, xi as int, yi as int);
                assert(target[t] == ((sx + xi) as u32, (sy - yi) as u32));
                assert(target.take(t + 1) =~= target.take(t).push(target[t]));
            }
            pixels.push((sx + xi, sy - yi));
            yi = yi + 1;
        }
        xi = xi + 1;
    }
    proof {
        assert(pixels@ =~= target);
    }
    pixels
}

} // verus!
