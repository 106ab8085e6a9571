use vstd::prelude::*;

use crate::grid::EdgeGrid;

verus! {

/// One of the four sides of a cell.
#[derive(Clone, Copy, Debug, PartialEq, Eq, Structural)]
pub enum CellSide {
    North,
    South,
    West,
    East,
}

/// Whether the edge on `side` of cell `(row, col)` is within `edges`.
pub open spec fn side_in(edges: EdgeGrid, row: int, col: int, side: CellSide) -> bool {
    match side {
        CellSide::North => edges.h_in(row, col),
        CellSide::South => edges.h_in(row + 1, col),
        CellSide::West => edges.v_in(row, col),
        CellSide::East => edges.v_in(row, col + 1),
    }
}

/// The edge on `side` of cell `(row, col)`: north and south are the
/// horizontal lines above and below it, west and east the vertical lines
/// left and right of it.
pub open spec fn edge_on_side(edges: EdgeGrid, row: int, col: int, side: CellSide) -> bool {
    match side {
        CellSide::North => edges.h(row, col),
        CellSide::South => edges.h(row + 1, col),
        CellSide::West => edges.v(row, col),
        CellSide::East => edges.v(row, col + 1),
    }
}

/// Every side of a cell inside a grid of this shape lies within its edges.
pub proof fn lemma_cell_sides_in(edges: EdgeGrid, grid_cols: int, grid_rows: int, row: int, col: int)
    requires
        edges.has_shape(grid_cols, grid_rows),
        0 <= row < grid_rows,
        0 <= col < grid_cols,
    ensures
        side_in(edges, row, col, CellSide::North),
        side_in(edges, row, col, CellSide::South),
        side_in(edges, row, col, CellSide::West),
        side_in(edges, row, col, CellSide::East),
{
    assert(edges.horizontal@[row]@.len() == grid_cols);
    assert(edges.horizontal@[row + 1]@.len() == grid_cols);
    assert(edges.vertical@[row]@.len() == grid_cols + 1);
}

pub fn has_edge_on_cell_side(edges: &EdgeGrid, row: i32, col: i32, side: CellSide) -> (r: bool)
    requires
        side_in(*edges, row as int, col as int, side),
        row < i32::MAX,
        col < i32::MAX,
    ensures
        r == edge_on_side(*edges, row as int, col as int, side),
{
    match side {
        CellSide::North => has_horizontal_edge(edges, row, col),
        CellSide::South => has_horizontal_edge(edges, row + 1, col),
        CellSide::West => has_vertical_edge(edges, row, col),
        CellSide::East => has_vertical_edge(edges, row, col + 1),
    }
}

pub fn has_horizontal_edge(edges: &EdgeGrid, row: i32, col: i32) -> (r: bool)
    requires
        edges.h_in(row as int, col as int),
    ensures
        r == edges.h(row as int, col as int),
{
    edges.horizontal[row as usize][col as usize]
}

pub fn has_vertical_edge(edges: &EdgeGrid, row: i32, col: i32) -> (r: bool)
    requires
        edges.v_in(row as int, col as int),
    ensures
        r == edges.v(row as int, col as int),
{
    edges.vertical[row as usize][col as usize]
}

/// 1 for a set flag, 0 otherwise.
pub open spec fn flag(b: bool) -> int {
    if b {
        1
    } else {
        0
    }
}

/// How many sides of cell `(row, col)` carry an edge.
pub open spec fn side_edge_count(edges: EdgeGrid, row: int, col: int) -> int {
    flag(edge_on_side(edges, row, col, CellSide::North)) + flag(edge_on_side(edges, row, col, CellSide::South))
        + flag(edge_on_side(edges, row, col, CellSide::West)) + flag(
        edge_on_side(edges, row, col, CellSide::East),
    )
}

/// Count how many cell sides have edges (0-4).
pub fn count_cell_side_edges(edges: &EdgeGrid, row: i32, col: i32) -> (n: u8)
    requires
        side_in(*edges, row as int, col as int, CellSide::North),
        side_in(*edges, row as int, col as int, CellSide::South),
        side_in(*edges, row as int, col as int, CellSide::West),
        side_in(*edges, row as int, col as int, CellSide::East),
        row < i32::MAX,
        col < i32::MAX,
    ensures
        n as int == side_edge_count(*edges, row as int, col as int),
        n <= 4,
{
    let mut n: u8 = 0;
    if has_edge_on_cell_side(edges, row, col, CellSide::North) {
        n = n + 1;
    }
    if has_edge_on_cell_side(edges, row, col, CellSide::South) {
        n = n + 1;
    }
    if has_edge_on_cell_side(edges, row, col, CellSide::West) {
        n = n + 1;
    }
    if has_edge_on_cell_side(edges, row, col, CellSide::East) {
        n = n + 1;
    }
    n
}

} // verus!
