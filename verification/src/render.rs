//! The picture of a grid, pixel by pixel: a white sheet with a margin, on
//! which every blocked wall is a black stroke. Each cell has its strokes
//! to the north and to the west of it; the last column and the last row
//! also carry the strokes of the outer boundary.

use crate::grid::{Direction, Grid};
use vstd::prelude::*;

verus! {

/// The width of a wall, in pixels.
pub const BASE_STROKE_WIDTH: u32 = 3;

/// The width of a cell between its walls, in pixels.
pub const BASE_CELL_LENGTH: u32 = 15;

/// The width of the white margin around the maze, in pixels.
pub const MARGIN_LENGTH: u32 = 15;

pub const BLACK: u8 = 0;

pub const WHITE: u8 = 255;

/// The length in pixels of a side of the picture along which `cells` cells
/// lie: the margins, a stroke and a space for every cell, and a last
/// stroke.
pub open spec fn side_length(cells: int) -> int {
    MARGIN_LENGTH * 2 + cells * (BASE_CELL_LENGTH + BASE_STROKE_WIDTH) + BASE_STROKE_WIDTH
}

/// The length of a side of the picture, if it fits a `u32`.
pub fn image_side(cells: usize) -> (side: Option<u32>)
    ensures
        side_length(cells as int) <= u32::MAX ==> side == Some(side_length(cells as int) as u32),
        side_length(cells as int) > u32::MAX ==> side.is_none(),
{
    let step = BASE_CELL_LENGTH + BASE_STROKE_WIDTH;
    let fixed = MARGIN_LENGTH * 2 + BASE_STROKE_WIDTH;
    let most = (u32::MAX - fixed) / step;
    if cells > most as usize {
        proof {
            assert(cells * 18 + 33 > u32::MAX) by (nonlinear_arith)
                requires
                    cells >= most + 1,
                    most == (u32::MAX - 33) / 18,
            ;
        }
        return None;
    }
    let cells = cells as u32;
    proof {
        assert(cells * 18 + 33 <= u32::MAX) by (nonlinear_arith)
            requires
                cells <= most,
                most == (u32::MAX - 33) / 18,
        ;
    }
    Some(MARGIN_LENGTH * 2 + cells * step + BASE_STROKE_WIDTH)
}

/// Where a pixel lies along one axis: the cell whose stroke or space it is
/// in, and whether it is in the stroke. The last stroke, past the last
/// cell, is counted to the last cell as its far stroke.
pub struct Place {
    pub index: usize,
    pub in_stroke: bool,
    pub far: bool,
}

/// The place of the pixel at offset `t` from the margin, along an axis with
/// `cells` cells.
pub open spec fn place_of(t: int, cells: int) -> Place {
    let step = (BASE_CELL_LENGTH + BASE_STROKE_WIDTH) as int;
    Place {
        index: (if t / step == cells { cells - 1 } else { t / step }) as usize,
        in_stroke: t % step < BASE_STROKE_WIDTH,
        far: t / step == cells,
    }
}

/// Finds the place of a pixel along one axis.
pub fn place(t: u32, cells: usize) -> (p: Place)
    requires
        cells >= 1,
        t < cells * (BASE_CELL_LENGTH + BASE_STROKE_WIDTH) + BASE_STROKE_WIDTH,
    ensures
        p == place_of(t as int, cells as int),
        p.index < cells,
{
    let cell_len = BASE_CELL_LENGTH + BASE_STROKE_WIDTH;
    let in_stroke = t % cell_len < BASE_STROKE_WIDTH;
    let mut index = (t / cell_len) as usize;
    let mut far = false;
    proof {
        assert(t as int / 18 <= cells) by (nonlinear_arith)
            requires
                t < cells * 18 + 3,
                cells >= 1,
        ;
    }
    if index == cells {
        index -= 1;
        far = true;
    }
    Place { index, in_stroke, far }
}

/// The colour of the pixel `(x, y)` in the picture of the grid. The margin
/// is white. A pixel in the stroke beside a cell is black where that wall
/// of the cell is blocked. A pixel where two strokes cross, away from the
/// far boundary, is also black where the wall that runs up to it, of the
/// cell before in the row or in the column, is blocked.
pub open spec fn pixel_of(grid: Grid, x: int, y: int) -> u8 {
    let inside = MARGIN_LENGTH <= x < side_length(grid.width as int) - MARGIN_LENGTH && MARGIN_LENGTH <= y
        < side_length(grid.height as int) - MARGIN_LENGTH;
    let across = place_of(x - MARGIN_LENGTH, grid.width as int);
    let down = place_of(y - MARGIN_LENGTH, grid.height as int);
    let x_dir = if across.far { Direction::East } else { Direction::West };
    let y_dir = if down.far { Direction::South } else { Direction::North };
    let i = across.index as int;
    let j = down.index as int;
    let corner_closed = !across.far && !down.far && across.in_stroke && down.in_stroke && ((i > 0 && grid.wall(
        i - 1,
        j,
        y_dir,
    )) || (j > 0 && grid.wall(i, j - 1, x_dir)));
    let x_cell_closed = across.in_stroke && grid.wall(i, j, x_dir);
    let y_cell_closed = down.in_stroke && grid.wall(i, j, y_dir);
    if inside && (x_cell_closed || y_cell_closed || corner_closed) {
        BLACK
    } else {
        WHITE
    }
}

/// The colour of one pixel of the picture of the grid.
pub fn pixel(grid: &Grid, x: u32, y: u32) -> (value: u8)
    requires
        grid.wf(),
        side_length(grid.width as int) <= u32::MAX,
        side_length(grid.height as int) <= u32::MAX,
        x < side_length(grid.width as int),
        y < side_length(grid.height as int),
    ensures
        value == pixel_of(*grid, x as int, y as int),
{
    let width = grid.width as u32;
    let height = grid.height as u32;
    let img_width = MARGIN_LENGTH * 2 + width * (BASE_CELL_LENGTH + BASE_STROKE_WIDTH) + BASE_STROKE_WIDTH;
    let img_height = MARGIN_LENGTH * 2 + height * (BASE_CELL_LENGTH + BASE_STROKE_WIDTH) + BASE_STROKE_WIDTH;
    let mut value = WHITE;
    let inside_margins = x >= MARGIN_LENGTH && x < (img_width - MARGIN_LENGTH) && y >= MARGIN_LENGTH && y < (img_height
        - MARGIN_LENGTH);
    if inside_margins {
        let across = place(x - MARGIN_LENGTH, grid.width);
        let down = place(y - MARGIN_LENGTH, grid.height);
        let x_dir = if across.far { Direction::East } else { Direction::West };
        let y_dir = if down.far { Direction::South } else { Direction::North };
        let x_idx = across.index;
        let y_idx = down.index;
        let border = across.far || down.far;
        let corner_closed = !border && across.in_stroke && down.in_stroke && ((x_idx > 0 && grid.cells[x_idx
            - 1][y_idx].get(y_dir)) || (y_idx > 0 && grid.cells[x_idx][y_idx - 1].get(x_dir)));
        let x_cell_closed = across.in_stroke && grid.cells[x_idx][y_idx].get(x_dir);
        let y_cell_closed = down.in_stroke && grid.cells[x_idx][y_idx].get(y_dir);
        if x_cell_closed || y_cell_closed || corner_closed {
            value = BLACK;
        }
    }
    value
}

} // verus!
