//! Grid geometry: pixel-to-cell conversion by floor division, the bounds
//! test, the pixel rectangle of a cell, the grid overlay lines, and the
//! selection rule applied to a pointer click.
use crate::config::TilesetConfiguration;
use crate::{TileMetadata, TileModel};
use vstd::arithmetic::div_mod::{
    lemma_div_nonincreasing, lemma_div_multiples_vanish, lemma_fundamental_div_mod,
    lemma_fundamental_div_mod_converse_div, lemma_mod_bound,
};
use vstd::arithmetic::mul::{lemma_mul_inequality, lemma_mul_nonnegative, lemma_mul_upper_bound};
use vstd::prelude::*;

verus! {

/// The cell under a pixel: floor division of each pixel coordinate by
/// the tile size, so a pointer left of or above the canvas yields a
/// negative index.
pub open spec fn spec_cell_from_point(px: int, py: int, cfg: TilesetConfiguration) -> (int, int) {
    (px / cfg.tile_width_px as int, py / cfg.tile_height_px as int)
}

/// A cell is in bounds when its column lies below the column count and
/// its row below the row count, both non-negative.
pub open spec fn spec_in_bounds(column: int, row: int, cfg: TilesetConfiguration) -> bool {
    0 <= column < cfg.columns && 0 <= row < cfg.rows
}

/// Floor division of a pixel coordinate by a positive tile size.
fn floor_div(a: i32, d: i32) -> (q: i32)
    requires
        d > 0,
    ensures
        q as int == a as int / d as int,
{
    if a >= 0 {
        let q64: u64 = (a as u64) / (d as u64);
        proof {
            lemma_div_nonincreasing(a as int, d as int);
        }
        q64 as i32
    } else {
        let m: u64 = (-(a as i64)) as u64;
        let dd: u64 = d as u64;
        let qc: u64 = (m + dd - 1) / dd;
        proof {
            lemma_fundamental_div_mod(m as int + dd as int - 1, dd as int);
            lemma_mod_bound(m as int + dd as int - 1, dd as int);
            // dd * qc lies in [m, m + dd - 1], so a == -(qc) * dd plus a
            // remainder dd * qc - m that lies inside [0, dd).
            assert(dd as int * qc as int >= m as int && dd as int * qc as int <= m as int
                + dd as int - 1);
            assert(a as int == (-(qc as int)) * dd as int + (dd as int * qc as int - m as int))
                by (nonlinear_arith)
                requires
                    m as int == -(a as int),
            ;
            lemma_fundamental_div_mod_converse_div(
                a as int,
                dd as int,
                -(qc as int),
                dd as int * qc as int - m as int,
            );
            assert(qc as int <= m as int) by (nonlinear_arith)
                requires
                    dd as int * qc as int <= m as int + dd as int - 1,
                    dd as int >= 1,
                    m as int >= 1,
                    qc as int >= 0,
            ;
        }
        (-(qc as i64)) as i32
    }
}

/// Converts a pointer position in canvas pixels to the cell it falls in.
pub fn cell_from_point(px: i32, py: i32, cfg: &TilesetConfiguration) -> (r: (i32, i32))
    requires
        cfg.wf(),
    ensures
        r.0 as int == spec_cell_from_point(px as int, py as int, *cfg).0,
        r.1 as int == spec_cell_from_point(px as int, py as int, *cfg).1,
{
    (floor_div(px, cfg.tile_width_px), floor_div(py, cfg.tile_height_px))
}

/// Reports whether a cell lies inside the configured grid.
pub fn is_in_bounds(column: i32, row: i32, cfg: &TilesetConfiguration) -> (r: bool)
    ensures
        r == spec_in_bounds(column as int, row as int, *cfg),
{
    0 <= column && column < cfg.columns && 0 <= row && row < cfg.rows
}

/// The pixel rectangle of one cell, used for the selection highlight:
/// from the cell's top-left corner to the top-left corner of the next
/// cell on both axes.
pub struct CellRect {
    pub min_x: i64,
    pub min_y: i64,
    pub max_x: i64,
    pub max_y: i64,
}

/// Pixel rectangle spanned by the cell at `(column, row)`.
pub fn cell_rect(column: i32, row: i32, cfg: &TilesetConfiguration) -> (r: CellRect)
    requires
        cfg.wf(),
        column >= 0,
        row >= 0,
    ensures
        r.min_x == column as int * cfg.tile_width_px as int,
        r.min_y == row as int * cfg.tile_height_px as int,
        r.max_x == (column as int + 1) * cfg.tile_width_px as int,
        r.max_y == (row as int + 1) * cfg.tile_height_px as int,
{
    proof {
        lemma_mul_nonnegative(column as int, cfg.tile_width_px as int);
        lemma_mul_nonnegative(row as int, cfg.tile_height_px as int);
        lemma_mul_upper_bound(column as int + 1, 0x8000_0000, cfg.tile_width_px as int, 0x8000_0000);
        lemma_mul_upper_bound(row as int + 1, 0x8000_0000, cfg.tile_height_px as int, 0x8000_0000);
        lemma_mul_inequality(column as int, column as int + 1, cfg.tile_width_px as int);
        lemma_mul_inequality(row as int, row as int + 1, cfg.tile_height_px as int);
    }
    CellRect {
        min_x: (column as i64) * (cfg.tile_width_px as i64),
        min_y: (row as i64) * (cfg.tile_height_px as i64),
        max_x: (column as i64 + 1) * (cfg.tile_width_px as i64),
        max_y: (row as i64 + 1) * (cfg.tile_height_px as i64),
    }
}

/// One straight overlay line, in canvas pixel coordinates.
pub struct GridLine {
    pub x1: i64,
    pub y1: i64,
    pub x2: i64,
    pub y2: i64,
}

/// The vertical grid lines: one at every multiple of the tile width from
/// zero up to and including the grid's right border, so `columns + 1`
/// lines in all, each running the full pixel height of the grid.
pub fn vertical_grid_lines(cfg: &TilesetConfiguration) -> (r: Vec<GridLine>)
    requires
        cfg.wf(),
    ensures
        r@.len() == cfg.columns as int + 1,
        forall|i: int|
            0 <= i < r@.len() ==> {
                let l = #[trigger] r@[i];
                l.x1 == i * cfg.tile_width_px as int && l.y1 == 0 && l.x2 == i
                    * cfg.tile_width_px as int && l.y2 == cfg.rows as int
                    * cfg.tile_height_px as int
            },
{
    proof {
        lemma_mul_nonnegative(cfg.rows as int, cfg.tile_height_px as int);
        lemma_mul_upper_bound(cfg.rows as int, 0x8000_0000, cfg.tile_height_px as int, 0x8000_0000);
    }
    let full_height: i64 = (cfg.rows as i64) * (cfg.tile_height_px as i64);
    let mut r: Vec<GridLine> = Vec::new();
    let mut i: i64 = 0;
    while i <= cfg.columns as i64
        invariant
            cfg.wf(),
            0 <= i <= cfg.columns as int + 1,
            full_height == cfg.rows as int * cfg.tile_height_px as int,
            r@.len() == i,
            forall|j: int|
                0 <= j < r@.len() ==> {
                    let l = #[trigger] r@[j];
                    l.x1 == j * cfg.tile_width_px as int && l.y1 == 0 && l.x2 == j
                        * cfg.tile_width_px as int && l.y2 == cfg.rows as int
                        * cfg.tile_height_px as int
                },
        decreases cfg.columns as int + 1 - i,
    {
        proof {
            lemma_mul_nonnegative(i as int, cfg.tile_width_px as int);
            lemma_mul_upper_bound(i as int, 0x8000_0000, cfg.tile_width_px as int, 0x8000_0000);
        }
        let x: i64 = i * (cfg.tile_width_px as i64);
        r.push(GridLine { x1: x, y1: 0, x2: x, y2: full_height });
        i = i + 1;
    }
    r
}

/// The horizontal grid lines: one at every multiple of the tile height
/// from zero up to and including the grid's bottom border, so `rows + 1`
/// lines in all, each running the full pixel width of the grid.
pub fn horizontal_grid_lines(cfg: &TilesetConfiguration) -> (r: Vec<GridLine>)
    requires
        cfg.wf(),
    ensures
        r@.len() == cfg.rows as int + 1,
        forall|i: int|
            0 <= i < r@.len() ==> {
                let l = #[trigger] r@[i];
                l.y1 == i * cfg.tile_height_px as int && l.x1 == 0 && l.y2 == i
                    * cfg.tile_height_px as int && l.x2 == cfg.columns as int
                    * cfg.tile_width_px as int
            },
{
    proof {
        lemma_mul_nonnegative(cfg.columns as int, cfg.tile_width_px as int);
        lemma_mul_upper_bound(cfg.columns as int, 0x8000_0000, cfg.tile_width_px as int, 0x8000_0000);
    }
    let full_width: i64 = (cfg.columns as i64) * (cfg.tile_width_px as i64);
    let mut r: Vec<GridLine> = Vec::new();
    let mut i: i64 = 0;
    while i <= cfg.rows as i64
        invariant
            cfg.wf(),
            0 <= i <= cfg.rows as int + 1,
            full_width == cfg.columns as int * cfg.tile_width_px as int,
            r@.len() == i,
            forall|j: int|
                0 <= j < r@.len() ==> {
                    let l = #[trigger] r@[j];
                    l.y1 == j * cfg.tile_height_px as int && l.x1 == 0 && l.y2 == j
                        * cfg.tile_height_px as int && l.x2 == cfg.columns as int
                        * cfg.tile_width_px as int
                },
        decreases cfg.rows as int + 1 - i,
    {
        proof {
            lemma_mul_nonnegative(i as int, cfg.tile_height_px as int);
            lemma_mul_upper_bound(i as int, 0x8000_0000, cfg.tile_height_px as int, 0x8000_0000);
        }
        let y: i64 = i * (cfg.tile_height_px as i64);
        r.push(GridLine { x1: 0, y1: y, x2: full_width, y2: y });
        i = i + 1;
    }
    r
}

/// Applies one pointer click to the current selection: an in-bounds
/// click overwrites the selection with the clicked cell and an empty
/// pending name; an out-of-bounds click leaves the selection unchanged.
pub fn select_cell(selected: &mut TileMetadata, px: i32, py: i32, cfg: &TilesetConfiguration) -> (accepted: bool)
    requires
        cfg.wf(),
    ensures
        ({
            let cell = spec_cell_from_point(px as int, py as int, *cfg);
            &&& accepted == spec_in_bounds(cell.0, cell.1, *cfg)
            &&& accepted ==> final(selected)@ == (TileModel {
                name: Seq::<char>::empty(),
                x: cell.0,
                y: cell.1,
            })
            &&& !accepted ==> *final(selected) == *old(selected)
            &&& accepted ==> final(selected).wf()
        }),
{
    let (column, row) = cell_from_point(px, py, cfg);
    if is_in_bounds(column, row, cfg) {
        *selected = TileMetadata { name: String::new(), x: column, y: row };
        true
    } else {
        false
    }
}

/// Law: for every configuration with positive tile sizes, the pixel at
/// the top-left corner of a cell maps to exactly that cell.
pub proof fn lemma_cell_corner_round_trip(column: int, row: int, cfg: TilesetConfiguration)
    requires
        cfg.wf(),
    ensures
        spec_cell_from_point(
            column * cfg.tile_width_px as int,
            row * cfg.tile_height_px as int,
            cfg,
        ) == (column, row),
{
    lemma_div_multiples_vanish(column, cfg.tile_width_px as int);
    lemma_div_multiples_vanish(row, cfg.tile_height_px as int);
    assert(column * cfg.tile_width_px as int == cfg.tile_width_px as int * column);
    assert(row * cfg.tile_height_px as int == cfg.tile_height_px as int * row);
}

/// A negative numerator divided by a positive divisor is negative.
proof fn lemma_neg_div_neg(x: int, d: int)
    requires
        d > 0,
        x < 0,
    ensures
        x / d < 0,
{
    lemma_fundamental_div_mod(x, d);
    lemma_mod_bound(x, d);
    if x / d >= 0 {
        lemma_mul_nonnegative(d, x / d);
    }
}

/// Law: a click with a negative coordinate, above or left of the canvas,
/// never lands in bounds: the cell it maps to is always rejected.
pub proof fn lemma_negative_click_out_of_bounds(px: int, py: int, cfg: TilesetConfiguration)
    requires
        cfg.wf(),
        px < 0 || py < 0,
    ensures
        !spec_in_bounds(
            spec_cell_from_point(px, py, cfg).0,
            spec_cell_from_point(px, py, cfg).1,
            cfg,
        ),
{
    if px < 0 {
        lemma_neg_div_neg(px, cfg.tile_width_px as int);
    } else {
        lemma_neg_div_neg(py, cfg.tile_height_px as int);
    }
}

} // verus!
