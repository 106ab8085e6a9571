//! Where wall segments end. A wall edge's segment runs between two grid
//! points; at each end it stops flush with the grid point, reaches half a
//! wall past it to close a corner, or pulls back half a wall to meet a wall
//! running through that point across it.
use vstd::prelude::*;

use crate::edges::{has_horizontal_edge, has_vertical_edge};
use crate::grid::EdgeGrid;

verus! {

/// How one end of a wall segment sits against its grid point.
#[derive(Clone, Copy, Debug, PartialEq, Eq, Structural)]
pub enum EndTrim {
    /// Ends on the grid point.
    Flush,
    /// Reaches half a wall past the grid point.
    Outset,
    /// Stops half a wall short of the grid point.
    Inset,
}

/// The trim of an end: pulled back when a wall crosses there and the line
/// does not continue, pushed out when the line does not continue at all.
pub open spec fn end_trim(crossing: bool, continues: bool) -> EndTrim {
    if crossing && !continues {
        EndTrim::Inset
    } else if !continues {
        EndTrim::Outset
    } else {
        EndTrim::Flush
    }
}

/// The horizontal wall edge from grid point `(col, row)` to `(col + 1, row)`
/// in a grid of this size.
pub open spec fn h_edge_ok(grid_cols: int, grid_rows: int, row: int, col: int) -> bool {
    0 <= row <= grid_rows && 0 <= col < grid_cols
}

/// The vertical wall edge from grid point `(col, row)` to `(col, row + 1)`.
pub open spec fn v_edge_ok(grid_cols: int, grid_rows: int, row: int, col: int) -> bool {
    0 <= row < grid_rows && 0 <= col <= grid_cols
}

/// The ends of the horizontal wall at `(row, col)`: the west end meets the
/// wall west of it or a vertical wall running through grid point
/// `(col, row)`, and likewise the east end at `(col + 1, row)`.
pub open spec fn horizontal_trims(e: EdgeGrid, grid_cols: int, grid_rows: int, row: int, col: int) -> (EndTrim, EndTrim) {
    let has_left = col > 0 && e.h(row, col - 1);
    let has_right = col < grid_cols - 1 && e.h(row, col + 1);
    let left_through = (row > 0 && e.v(row - 1, col)) && (row < grid_rows && e.v(row, col));
    let right_through = (row > 0 && e.v(row - 1, col + 1)) && (row < grid_rows && e.v(row, col + 1));
    (end_trim(left_through, has_left), end_trim(right_through, has_right))
}

/// Whether a horizontal wall touches the top and the bottom end of the
/// vertical wall at `(row, col)`.
pub open spec fn perpendicular_walls(e: EdgeGrid, grid_cols: int, grid_rows: int, row: int, col: int) -> (bool, bool) {
    (
        row > 0 && ((col < grid_cols && e.h(row, col)) || (col > 0 && e.h(row, col - 1))),
        row < grid_rows && ((col < grid_cols && e.h(row + 1, col)) || (col > 0 && e.h(row + 1, col - 1))),
    )
}

/// The ends of the vertical wall at `(row, col)`: each meets the wall
/// continuing it or a horizontal wall touching that grid point.
pub open spec fn vertical_trims(e: EdgeGrid, grid_cols: int, grid_rows: int, row: int, col: int) -> (EndTrim, EndTrim) {
    let has_top = row > 0 && e.v(row - 1, col);
    let has_bottom = row < grid_rows - 1 && e.v(row + 1, col);
    let (perp_top, perp_bottom) = perpendicular_walls(e, grid_cols, grid_rows, row, col);
    (end_trim(perp_top, has_top), end_trim(perp_bottom, has_bottom))
}

fn trim(crossing: bool, continues: bool) -> (t: EndTrim)
    ensures
        t == end_trim(crossing, continues),
{
    if crossing && !continues {
        EndTrim::Inset
    } else if !continues {
        EndTrim::Outset
    } else {
        EndTrim::Flush
    }
}

/// Whether horizontal walls touch the top and bottom ends of the vertical
/// wall at `(row, col)`.
pub fn has_perpendicular_horizontal_walls(edges: &EdgeGrid, row: i32, col: i32, grid_cols: i32, grid_rows: i32) -> (p: (
    bool,
    bool,
))
    requires
        edges.has_shape(grid_cols as int, grid_rows as int),
        v_edge_ok(grid_cols as int, grid_rows as int, row as int, col as int),
    ensures
        p == perpendicular_walls(*edges, grid_cols as int, grid_rows as int, row as int, col as int),
{
    proof {
        assert(edges.horizontal@[row as int]@.len() == grid_cols);
        assert(edges.horizontal@[row + 1]@.len() == grid_cols);
    }
    let top = row > 0 && ((col < grid_cols && has_horizontal_edge(edges, row, col)) || (col > 0 && has_horizontal_edge(
        edges,
        row,
        col - 1,
    )));
    let bottom = row < grid_rows && ((col < grid_cols && has_horizontal_edge(edges, row + 1, col)) || (col > 0
        && has_horizontal_edge(edges, row + 1, col - 1)));
    (top, bottom)
}

/// How the horizontal wall at `(row, col)` ends west and east.
pub fn horizontal_wall_segment(edges: &EdgeGrid, row: i32, col: i32, grid_cols: i32, grid_rows: i32) -> (t: (
    EndTrim,
    EndTrim,
))
    requires
        edges.has_shape(grid_cols as int, grid_rows as int),
        h_edge_ok(grid_cols as int, grid_rows as int, row as int, col as int),
    ensures
        t == horizontal_trims(*edges, grid_cols as int, grid_rows as int, row as int, col as int),
{
    proof {
        assert(edges.horizontal@[row as int]@.len() == grid_cols);
        if row > 0 {
            assert(edges.vertical@[row - 1]@.len() == grid_cols + 1);
        }
        if row < grid_rows {
            assert(edges.vertical@[row as int]@.len() == grid_cols + 1);
        }
    }
    let has_left = col > 0 && has_horizontal_edge(edges, row, col - 1);
    let has_right = col < grid_cols - 1 && has_horizontal_edge(edges, row, col + 1);
    let left_top = row > 0 && has_vertical_edge(edges, row - 1, col);
    let left_bottom = row < grid_rows && has_vertical_edge(edges, row, col);
    let right_top = row > 0 && has_vertical_edge(edges, row - 1, col + 1);
    let right_bottom = row < grid_rows && has_vertical_edge(edges, row, col + 1);
    (trim(left_top && left_bottom, has_left), trim(right_top && right_bottom, has_right))
}

/// How the vertical wall at `(row, col)` ends north and south.
pub fn vertical_wall_segment(edges: &EdgeGrid, row: i32, col: i32, grid_cols: i32, grid_rows: i32) -> (t: (
    EndTrim,
    EndTrim,
))
    requires
        edges.has_shape(grid_cols as int, grid_rows as int),
        v_edge_ok(grid_cols as int, grid_rows as int, row as int, col as int),
    ensures
        t == vertical_trims(*edges, grid_cols as int, grid_rows as int, row as int, col as int),
{
    proof {
        if row > 0 {
            assert(edges.vertical@[row - 1]@.len() == grid_cols + 1);
        }
        if row < grid_rows - 1 {
            assert(edges.vertical@[row + 1]@.len() == grid_cols + 1);
        }
    }
    let has_top = row > 0 && has_vertical_edge(edges, row - 1, col);
    let has_bottom = row < grid_rows - 1 && has_vertical_edge(edges, row + 1, col);
    let (perp_top, perp_bottom) = has_perpendicular_horizontal_walls(edges, row, col, grid_cols, grid_rows);
    (trim(perp_top, has_top), trim(perp_bottom, has_bottom))
}

} // verus!
