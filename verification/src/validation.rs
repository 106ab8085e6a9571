use vstd::prelude::*;

use crate::error::{EdgeList, FloorList, MapError, RampEnd, ZoneList};
use crate::grid::{EdgeGrid, bool_rows_shape, false_rows};
use crate::schema::{CellDef, LevelDef, MapDef, RampDef, WallDef};

verus! {

// ---------------------------------------------------------------------------
// What a valid map is
// ---------------------------------------------------------------------------

/// `|x|`
pub open spec fn abs(x: int) -> int {
    if x < 0 {
        -x
    } else {
        x
    }
}

/// A cell of a `grid_cols` x `grid_rows` grid.
pub open spec fn cell_in_grid(cell: (i32, i32), grid_cols: int, grid_rows: int) -> bool {
    0 <= cell.0 < grid_cols && 0 <= cell.1 < grid_rows
}

/// A grid point (a corner between cells) of such a grid.
pub open spec fn point_in_grid(point: [i32; 2], grid_cols: int, grid_rows: int) -> bool {
    0 <= point[0] <= grid_cols && 0 <= point[1] <= grid_rows
}

/// A wall or barrier `[c0, r0, c1, r1]`: both ends on the grid and exactly
/// one grid edge long.
pub open spec fn edge_valid(edge: [i32; 4], grid_cols: int, grid_rows: int) -> bool {
    &&& point_in_grid([edge[0], edge[1]], grid_cols, grid_rows)
    &&& point_in_grid([edge[2], edge[3]], grid_cols, grid_rows)
    &&& abs(edge[2] - edge[0]) + abs(edge[3] - edge[1]) == 1
}

/// `(c1, r1) < (c0, r0)` in tuple order.
pub open spec fn ends_reversed(edge: [i32; 4]) -> bool {
    edge[2] < edge[0] || (edge[2] == edge[0] && edge[3] < edge[1])
}

/// The edge with its smaller end (in `(col, row)` tuple order) first.
pub open spec fn normalized(edge: [i32; 4]) -> [i32; 4] {
    if ends_reversed(edge) {
        [edge[2], edge[3], edge[0], edge[1]]
    } else {
        edge
    }
}

/// The edge as a tuple, smaller end first: equal exactly for the same grid
/// edge, whichever way round it was written.
pub open spec fn norm_key(edge: [i32; 4]) -> (i32, i32, i32, i32) {
    if ends_reversed(edge) {
        (edge[2], edge[3], edge[0], edge[1])
    } else {
        (edge[0], edge[1], edge[2], edge[3])
    }
}

/// The edge as a tuple, as written.
pub open spec fn key4(edge: [i32; 4]) -> (i32, i32, i32, i32) {
    (edge[0], edge[1], edge[2], edge[3])
}

pub open spec fn wall_edge(w: WallDef) -> [i32; 4] {
    [w.c0, w.r0, w.c1, w.r1]
}

pub open spec fn floor_cell(f: CellDef) -> (i32, i32) {
    (f.col, f.row)
}

pub open spec fn pair(a: [i32; 2]) -> (i32, i32) {
    (a[0], a[1])
}

pub open spec fn zone_range_ok(cols: [i32; 2], rows: [i32; 2], grid_cols: int, grid_rows: int) -> bool {
    &&& cols[0] < cols[1]
    &&& rows[0] < rows[1]
    &&& 0 <= cols[0]
    &&& cols[1] <= grid_cols
    &&& 0 <= rows[0]
    &&& rows[1] <= grid_rows
}

pub open spec fn actor_zones_ok(m: MapDef) -> bool {
    forall|i: int|
        0 <= i < m.actor_spawn_zones@.len() ==> {
            let z = #[trigger] m.actor_spawn_zones@[i];
            &&& (z.level as int) < m.levels@.len()
            &&& zone_range_ok(z.cols, z.rows, m.grid_cols as int, m.grid_rows as int)
            &&& z.kind@.len() > 0
        }
}

pub open spec fn player_zones_ok(m: MapDef) -> bool {
    forall|i: int|
        0 <= i < m.player_spawn_zones@.len() ==> {
            let z = #[trigger] m.player_spawn_zones@[i];
            &&& (z.level as int) < m.levels@.len()
            &&& zone_range_ok(z.cols, z.rows, m.grid_cols as int, m.grid_rows as int)
        }
}

/// Every cell of the list is on the grid and none is listed twice.
pub open spec fn cells_ok(cells: Seq<CellDef>, grid_cols: int, grid_rows: int) -> bool {
    &&& forall|i: int| 0 <= i < cells.len() ==> cell_in_grid(floor_cell(#[trigger] cells[i]), grid_cols, grid_rows)
    &&& forall|i: int, j: int|
        0 <= i < j < cells.len() ==> floor_cell(#[trigger] cells[i]) != floor_cell(#[trigger] cells[j])
}

/// Every edge of the list is valid and no grid edge is listed twice.
pub open spec fn edges_ok(edges: Seq<[i32; 4]>, grid_cols: int, grid_rows: int) -> bool {
    &&& forall|i: int| 0 <= i < edges.len() ==> edge_valid(#[trigger] edges[i], grid_cols, grid_rows)
    &&& forall|i: int, j: int|
        0 <= i < j < edges.len() ==> norm_key(#[trigger] edges[i]) != norm_key(#[trigger] edges[j])
}

pub open spec fn list_cells(level: LevelDef, list: FloorList) -> Seq<CellDef> {
    match list {
        FloorList::Floors => level.floors@,
        FloorList::InaccessibleFloors => level.inaccessible_floors@,
        FloorList::Terrain => level.terrain@,
    }
}

pub open spec fn list_edges(level: LevelDef, list: EdgeList) -> Seq<[i32; 4]> {
    match list {
        EdgeList::Walls => level_walls(level),
        EdgeList::Barriers => level_barriers(level),
    }
}

pub open spec fn level_walls(level: LevelDef) -> Seq<[i32; 4]> {
    level.walls@.map_values(|w: WallDef| wall_edge(w))
}

pub open spec fn level_barriers(level: LevelDef) -> Seq<[i32; 4]> {
    level.barriers@.map_values(|b: crate::schema::BarrierDef| [b.c0, b.r0, b.c1, b.r1])
}

pub open spec fn level_ok(level: LevelDef, grid_cols: int, grid_rows: int) -> bool {
    &&& level.floors@.len() > 0
    &&& cells_ok(level.floors@, grid_cols, grid_rows)
    &&& cells_ok(level.inaccessible_floors@, grid_cols, grid_rows)
    &&& forall|i: int, j: int|
        0 <= i < level.inaccessible_floors@.len() && 0 <= j < level.floors@.len() ==> floor_cell(
            #[trigger] level.inaccessible_floors@[i],
        ) != floor_cell(#[trigger] level.floors@[j])
    &&& cells_ok(level.terrain@, grid_cols, grid_rows)
    &&& forall|i: int, j: int|
        0 <= i < level.terrain@.len() && 0 <= j < level.floors@.len() ==> floor_cell(#[trigger] level.terrain@[i])
            != floor_cell(#[trigger] level.floors@[j])
    &&& forall|i: int, j: int|
        0 <= i < level.terrain@.len() && 0 <= j < level.inaccessible_floors@.len() ==> floor_cell(
            #[trigger] level.terrain@[i],
        ) != floor_cell(#[trigger] level.inaccessible_floors@[j])
    &&& edges_ok(level_walls(level), grid_cols, grid_rows)
    &&& edges_ok(level_barriers(level), grid_cols, grid_rows)
    &&& forall|i: int, j: int|
        0 <= i < level_barriers(level).len() && 0 <= j < level_walls(level).len() ==> norm_key(
            #[trigger] level_barriers(level)[i],
        ) != norm_key(#[trigger] level_walls(level)[j])
}

pub open spec fn ramp_ok(r: RampDef, grid_cols: int, grid_rows: int, level_count: int) -> bool {
    &&& r.lower_level + 1 < level_count
    &&& point_in_grid(r.low, grid_cols, grid_rows)
    &&& point_in_grid(r.high, grid_cols, grid_rows)
    &&& r.high[0] != r.low[0]
    &&& r.high[1] != r.low[1]
    &&& abs(r.high[0] - r.low[0]) != abs(r.high[1] - r.low[1])
}

pub open spec fn same_ramp(a: RampDef, b: RampDef) -> bool {
    a.lower_level == b.lower_level && pair(a.low) == pair(b.low) && pair(a.high) == pair(b.high)
}

pub open spec fn ramps_ok(m: MapDef) -> bool {
    &&& forall|i: int|
        0 <= i < m.ramps@.len() ==> ramp_ok(
            #[trigger] m.ramps@[i],
            m.grid_cols as int,
            m.grid_rows as int,
            m.levels@.len() as int,
        )
    &&& forall|i: int, j: int| 0 <= i < j < m.ramps@.len() ==> !same_ramp(#[trigger] m.ramps@[i], #[trigger] m.ramps@[j])
}

/// A map the compiler accepts: a positive grid, at least one level and one
/// player spawn zone, zones on existing levels inside the grid, and per
/// level at least one floor, cells and edges on the grid and never listed
/// twice, inaccessible floors apart from floors, terrain apart from both,
/// barriers apart from walls,
/// and ramps between existing levels with one clear longer axis.
pub open spec fn map_valid(m: MapDef) -> bool {
    &&& m.grid_cols > 0
    &&& m.grid_rows > 0
    &&& m.levels@.len() > 0
    &&& m.player_spawn_zones@.len() > 0
    &&& actor_zones_ok(m)
    &&& player_zones_ok(m)
    &&& forall|i: int|
        0 <= i < m.levels@.len() ==> level_ok(#[trigger] m.levels@[i], m.grid_cols as int, m.grid_rows as int)
    &&& ramps_ok(m)
}

/// The error names a real defect of `m`.
pub open spec fn error_holds(m: MapDef, e: MapError) -> bool {
    match e {
        MapError::GridNotPositive => m.grid_cols <= 0 || m.grid_rows <= 0,
        MapError::NoLevels => m.levels@.len() == 0,
        MapError::NoPlayerSpawnZones => m.player_spawn_zones@.len() == 0,
        MapError::ZoneLevelOutOfRange { zone, index, level, level_count } => level_count == m.levels@.len()
            && (level as int) >= level_count && match zone {
            ZoneList::Actor => index < m.actor_spawn_zones@.len() && m.actor_spawn_zones@[index as int].level
                == level,
            ZoneList::Player => index < m.player_spawn_zones@.len() && m.player_spawn_zones@[index as int].level
                == level,
        },
        MapError::ZoneEmpty { zone, index, cols, rows } => (cols[1] <= cols[0] || rows[1] <= rows[0])
            && match zone {
            ZoneList::Actor => index < m.actor_spawn_zones@.len() && m.actor_spawn_zones@[index as int].cols
                == cols && m.actor_spawn_zones@[index as int].rows == rows,
            ZoneList::Player => index < m.player_spawn_zones@.len() && m.player_spawn_zones@[index as int].cols
                == cols && m.player_spawn_zones@[index as int].rows == rows,
        },
        MapError::ZoneOutOfBounds { zone, index, cols, rows, grid_cols, grid_rows } => grid_cols == m.grid_cols
            && grid_rows == m.grid_rows && !zone_range_ok(cols, rows, grid_cols as int, grid_rows as int)
            && match zone {
            ZoneList::Actor => index < m.actor_spawn_zones@.len() && m.actor_spawn_zones@[index as int].cols
                == cols && m.actor_spawn_zones@[index as int].rows == rows,
            ZoneList::Player => index < m.player_spawn_zones@.len() && m.player_spawn_zones@[index as int].cols
                == cols && m.player_spawn_zones@[index as int].rows == rows,
        },
        MapError::ZoneEmptyKind { index } => index < m.actor_spawn_zones@.len()
            && m.actor_spawn_zones@[index as int].kind@.len() == 0,
        MapError::LevelWithoutFloor { level, name } => level < m.levels@.len() && m.levels@[level as int].name
            == name && m.levels@[level as int].floors@.len() == 0,
        MapError::FloorOutOfBounds { level, name, list, index, cell, grid_cols, grid_rows } => level
            < m.levels@.len() && m.levels@[level as int].name == name && grid_cols == m.grid_cols && grid_rows
            == m.grid_rows && !cell_in_grid(pair(cell), grid_cols as int, grid_rows as int) && {
            let cells = list_cells(m.levels@[level as int], list);
            index < cells.len() && floor_cell(cells[index as int]) == pair(cell)
        },
        MapError::DuplicateFloor { level, name, list, cell } => level < m.levels@.len()
            && m.levels@[level as int].name == name && {
            let cells = list_cells(m.levels@[level as int], list);
            exists|i: int, j: int|
                0 <= i < j < cells.len() && floor_cell(#[trigger] cells[i]) == pair(cell) && floor_cell(
                    #[trigger] cells[j],
                ) == pair(cell)
        },
        MapError::InaccessibleOverlapsFloor { level, name, cell } => level < m.levels@.len()
            && m.levels@[level as int].name == name && (exists|i: int|
            0 <= i < m.levels@[level as int].inaccessible_floors@.len() && floor_cell(
                #[trigger] m.levels@[level as int].inaccessible_floors@[i],
            ) == pair(cell)) && (exists|j: int|
            0 <= j < m.levels@[level as int].floors@.len() && floor_cell(
                #[trigger] m.levels@[level as int].floors@[j],
            ) == pair(cell)),
        MapError::TerrainOverlapsFloor { level, name, cell } => level < m.levels@.len()
            && m.levels@[level as int].name == name && (exists|i: int|
            0 <= i < m.levels@[level as int].terrain@.len() && floor_cell(
                #[trigger] m.levels@[level as int].terrain@[i],
            ) == pair(cell)) && ((exists|j: int|
            0 <= j < m.levels@[level as int].floors@.len() && floor_cell(
                #[trigger] m.levels@[level as int].floors@[j],
            ) == pair(cell)) || (exists|j: int|
            0 <= j < m.levels@[level as int].inaccessible_floors@.len() && floor_cell(
                #[trigger] m.levels@[level as int].inaccessible_floors@[j],
            ) == pair(cell))),
        MapError::EdgePointOutOfBounds { level, name, list, index, point, grid_cols, grid_rows } => level
            < m.levels@.len() && m.levels@[level as int].name == name && grid_cols == m.grid_cols && grid_rows
            == m.grid_rows && !point_in_grid(point, grid_cols as int, grid_rows as int) && {
            let edges = list_edges(m.levels@[level as int], list);
            index < edges.len() && (pair(point) == (edges[index as int][0], edges[index as int][1]) || pair(point)
                == (edges[index as int][2], edges[index as int][3]))
        },
        MapError::EdgeNotOneGridEdge { level, name, list, index, edge } => level < m.levels@.len()
            && m.levels@[level as int].name == name && abs(edge[2] - edge[0]) + abs(edge[3] - edge[1]) != 1 && {
            let edges = list_edges(m.levels@[level as int], list);
            index < edges.len() && edges[index as int] == edge
        },
        MapError::DuplicateEdge { level, name, list, edge } => level < m.levels@.len() && m.levels@[level as int].name
            == name && {
            let edges = list_edges(m.levels@[level as int], list);
            exists|i: int, j: int|
                0 <= i < j < edges.len() && norm_key(#[trigger] edges[i]) == key4(edge) && norm_key(
                    #[trigger] edges[j],
                ) == key4(edge)
        },
        MapError::BarrierOverlapsWall { level, name, index, edge } => level < m.levels@.len()
            && m.levels@[level as int].name == name && index < m.levels@[level as int].barriers@.len()
            && norm_key(level_barriers(m.levels@[level as int])[index as int]) == key4(edge) && exists|j: int|
            0 <= j < m.levels@[level as int].walls@.len() && norm_key(
                #[trigger] level_walls(m.levels@[level as int])[j],
            ) == key4(edge),
        MapError::RampWithoutUpperLevel { index, lower_level, level_count } => index < m.ramps@.len()
            && m.ramps@[index as int].lower_level == lower_level && level_count == m.levels@.len()
            && lower_level + 1 >= level_count,
        MapError::RampPointOutOfBounds { index, end, point, grid_cols, grid_rows } => index < m.ramps@.len()
            && grid_cols == m.grid_cols && grid_rows == m.grid_rows && !point_in_grid(
            point,
            grid_cols as int,
            grid_rows as int,
        ) && point == match end {
            RampEnd::Low => m.ramps@[index as int].low,
            RampEnd::High => m.ramps@[index as int].high,
        },
        MapError::RampEmptyFootprint { index } => index < m.ramps@.len() && (m.ramps@[index as int].high[0]
            == m.ramps@[index as int].low[0] || m.ramps@[index as int].high[1] == m.ramps@[index as int].low[1]),
        MapError::RampSquareFootprint { index } => index < m.ramps@.len() && abs(
            m.ramps@[index as int].high[0] - m.ramps@[index as int].low[0],
        ) == abs(m.ramps@[index as int].high[1] - m.ramps@[index as int].low[1]),
        MapError::DuplicateRamp { lower_level, low, high } => exists|i: int, j: int|
            0 <= i < j < m.ramps@.len() && (#[trigger] m.ramps@[i]).lower_level == lower_level
                && pair(m.ramps@[i].low) == pair(low) && pair(m.ramps@[i].high) == pair(high) && same_ramp(
                m.ramps@[i],
                #[trigger] m.ramps@[j],
            ),
        _ => false,
    }
}

// ---------------------------------------------------------------------------
// Single checks
// ---------------------------------------------------------------------------

pub fn validate_floor(floor: [i32; 2], grid_cols: i32, grid_rows: i32) -> (ok: bool)
    ensures
        ok == cell_in_grid(pair(floor), grid_cols as int, grid_rows as int),
{
    let col = floor[0];
    let row = floor[1];
    !(col < 0 || col >= grid_cols || row < 0 || row >= grid_rows)
}

pub fn validate_grid_point(point: [i32; 2], grid_cols: i32, grid_rows: i32) -> (ok: bool)
    ensures
        ok == point_in_grid(point, grid_cols as int, grid_rows as int),
{
    let col = point[0];
    let row = point[1];
    !(col < 0 || col > grid_cols || row < 0 || row > grid_rows)
}

/// What is wrong with a wall or barrier edge, if anything.
#[derive(Clone, Copy, Debug)]
pub enum EdgeFault {
    PointOutOfBounds([i32; 2]),
    NotOneGridEdge,
}

/// Checks an edge as the compiler does: its first end, its second end,
/// then its length.
pub fn validate_wall(wall: [i32; 4], grid_cols: i32, grid_rows: i32) -> (fault: Option<EdgeFault>)
    ensures
        fault is None <==> edge_valid(wall, grid_cols as int, grid_rows as int),
        fault matches Some(EdgeFault::PointOutOfBounds(p)) ==> !point_in_grid(p, grid_cols as int, grid_rows as int)
            && (pair(p) == (wall[0], wall[1]) || pair(p) == (wall[2], wall[3])),
        fault matches Some(EdgeFault::NotOneGridEdge) ==> abs(wall[2] - wall[0]) + abs(wall[3] - wall[1]) != 1,
{
    if !validate_grid_point([wall[0], wall[1]], grid_cols, grid_rows) {
        return Some(EdgeFault::PointOutOfBounds([wall[0], wall[1]]));
    }
    if !validate_grid_point([wall[2], wall[3]], grid_cols, grid_rows) {
        return Some(EdgeFault::PointOutOfBounds([wall[2], wall[3]]));
    }
    let dc: i64 = wall[2] as i64 - wall[0] as i64;
    let dr: i64 = wall[3] as i64 - wall[1] as i64;
    let length = (if dc < 0 {
        -dc
    } else {
        dc
    }) + (if dr < 0 {
        -dr
    } else {
        dr
    });
    if length != 1 {
        return Some(EdgeFault::NotOneGridEdge);
    }
    None
}

/// The edge with its smaller end first, so both spellings of an edge compare
/// equal.
pub fn normalized_wall(wall: [i32; 4]) -> (n: [i32; 4])
    ensures
        n == normalized(wall),
        key4(n) == norm_key(wall),
{
    if wall[2] < wall[0] || (wall[2] == wall[0] && wall[3] < wall[1]) {
        [wall[2], wall[3], wall[0], wall[1]]
    } else {
        wall
    }
}

// ---------------------------------------------------------------------------
// Edge slots: where a valid edge lives in an `EdgeGrid`
// ---------------------------------------------------------------------------

/// The slot a valid one-edge wall occupies: `(horizontal, row, col)`.
pub open spec fn edge_slot(edge: [i32; 4]) -> (bool, int, int) {
    if edge[1] == edge[3] {
        (true, edge[1] as int, if edge[0] <= edge[2] {
            edge[0] as int
        } else {
            edge[2] as int
        })
    } else {
        (false, if edge[1] <= edge[3] {
            edge[1] as int
        } else {
            edge[3] as int
        }, edge[0] as int)
    }
}

/// Two valid edges share a slot exactly when they are the same grid edge.
pub proof fn lemma_slot_matches_normalized(a: [i32; 4], b: [i32; 4], grid_cols: int, grid_rows: int)
    requires
        edge_valid(a, grid_cols, grid_rows),
        edge_valid(b, grid_cols, grid_rows),
    ensures
        (edge_slot(a) == edge_slot(b)) <==> (norm_key(a) == norm_key(b)),
{
}

/// A valid edge's slot lies inside an edge grid of the same size.
pub open spec fn slot_in(edges: EdgeGrid, slot: (bool, int, int)) -> bool {
    if slot.0 {
        edges.h_in(slot.1, slot.2)
    } else {
        edges.v_in(slot.1, slot.2)
    }
}

pub open spec fn slot_set(edges: EdgeGrid, slot: (bool, int, int)) -> bool {
    if slot.0 {
        edges.h(slot.1, slot.2)
    } else {
        edges.v(slot.1, slot.2)
    }
}

pub proof fn lemma_valid_edge_slot_in(edge: [i32; 4], edges: EdgeGrid, grid_cols: int, grid_rows: int)
    requires
        edge_valid(edge, grid_cols, grid_rows),
        edges.has_shape(grid_cols, grid_rows),
    ensures
        slot_in(edges, edge_slot(edge)),
{
    let s = edge_slot(edge);
    if s.0 {
        assert(edges.horizontal@[s.1]@.len() == grid_cols);
    } else {
        assert(edges.vertical@[s.1]@.len() == grid_cols + 1);
    }
}

/// Which slot a valid edge occupies, computed.
pub fn slot_of(edge: [i32; 4]) -> (s: (bool, usize, usize))
    requires
        edge[0] >= 0 && edge[1] >= 0 && edge[2] >= 0 && edge[3] >= 0,
    ensures
        (s.0, s.1 as int, s.2 as int) == edge_slot(edge),
{
    if edge[1] == edge[3] {
        (true, edge[1] as usize, if edge[0] <= edge[2] {
            edge[0] as usize
        } else {
            edge[2] as usize
        })
    } else {
        (false, if edge[1] <= edge[3] {
            edge[1] as usize
        } else {
            edge[3] as usize
        }, edge[0] as usize)
    }
}

/// Read the slot.
pub fn slot_get(edges: &EdgeGrid, s: (bool, usize, usize)) -> (b: bool)
    requires
        slot_in(*edges, (s.0, s.1 as int, s.2 as int)),
    ensures
        b == slot_set(*edges, (s.0, s.1 as int, s.2 as int)),
{
    if s.0 {
        edges.horizontal[s.1][s.2]
    } else {
        edges.vertical[s.1][s.2]
    }
}

/// Set the slot, leaving every other one as it was.
pub fn slot_put(edges: &mut EdgeGrid, s: (bool, usize, usize))
    requires
        slot_in(*old(edges), (s.0, s.1 as int, s.2 as int)),
    ensures
        forall|t: (bool, int, int)|
            #![trigger slot_set(*final(edges), t)]
            slot_in(*old(edges), t) ==> slot_set(*final(edges), t) == (slot_set(*old(edges), t) || t == (
                s.0,
                s.1 as int,
                s.2 as int,
            )),
        forall|g: int, c: int| #![trigger final(edges).has_shape(g, c)] old(edges).has_shape(g, c) ==> final(edges).has_shape(g, c),
        final(edges).horizontal@.len() == old(edges).horizontal@.len(),
        final(edges).vertical@.len() == old(edges).vertical@.len(),
        forall|r: int| 0 <= r < old(edges).horizontal@.len() ==> #[trigger] final(edges).horizontal@[r]@.len() == old(edges).horizontal@[r]@.len(),
        forall|r: int| 0 <= r < old(edges).vertical@.len() ==> #[trigger] final(edges).vertical@[r]@.len() == old(edges).vertical@[r]@.len(),
{
    if s.0 {
        edges.horizontal[s.1][s.2] = true;
    } else {
        edges.vertical[s.1][s.2] = true;
    }
}


// ---------------------------------------------------------------------------
// Zones
// ---------------------------------------------------------------------------

/// What is wrong with a zone rectangle, if anything.
#[derive(Clone, Copy, Debug, PartialEq, Eq, Structural)]
pub enum ZoneFault {
    Empty,
    OutOfBounds,
}

/// Checks a zone rectangle: non-empty first, then inside the grid.
pub fn validate_zone_range(cols: [i32; 2], rows: [i32; 2], grid_cols: i32, grid_rows: i32) -> (fault: Option<
    ZoneFault,
>)
    ensures
        fault is None <==> zone_range_ok(cols, rows, grid_cols as int, grid_rows as int),
        fault == Some(ZoneFault::Empty) <==> (cols[1] <= cols[0] || rows[1] <= rows[0]),
{
    let c0 = cols[0];
    let c1 = cols[1];
    let r0 = rows[0];
    let r1 = rows[1];
    if c1 <= c0 || r1 <= r0 {
        return Some(ZoneFault::Empty);
    }
    if c0 < 0 || c1 > grid_cols || r0 < 0 || r1 > grid_rows {
        return Some(ZoneFault::OutOfBounds);
    }
    None
}

/// The zone `index` of list `zone` is at `level` and spans `cols` x `rows`.
pub open spec fn zone_is(m: MapDef, zone: ZoneList, index: int, level: u32, cols: [i32; 2], rows: [i32; 2]) -> bool {
    match zone {
        ZoneList::Actor => 0 <= index < m.actor_spawn_zones@.len() && m.actor_spawn_zones@[index].level == level
            && m.actor_spawn_zones@[index].cols == cols && m.actor_spawn_zones@[index].rows == rows,
        ZoneList::Player => 0 <= index < m.player_spawn_zones@.len() && m.player_spawn_zones@[index].level
            == level && m.player_spawn_zones@[index].cols == cols && m.player_spawn_zones@[index].rows == rows,
    }
}

/// A zone's level must exist and its rectangle lie on the grid.
pub fn validate_zone_placement(
    zone: ZoneList,
    index: usize,
    level: u32,
    cols: [i32; 2],
    rows: [i32; 2],
    m: &MapDef,
) -> (res: Result<(), MapError>)
    requires
        zone_is(*m, zone, index as int, level, cols, rows),
    ensures
        res is Ok <==> ((level as int) < m.levels@.len() && zone_range_ok(
            cols,
            rows,
            m.grid_cols as int,
            m.grid_rows as int,
        )),
        res matches Err(e) ==> error_holds(*m, e) && error_stage(e) == if zone == ZoneList::Actor { 3int } else { 4int },
{
    if level as usize >= m.levels.len() {
        return Err(MapError::ZoneLevelOutOfRange { zone, index, level, level_count: m.levels.len() });
    }
    match validate_zone_range(cols, rows, m.grid_cols, m.grid_rows) {
        Some(ZoneFault::Empty) => Err(MapError::ZoneEmpty { zone, index, cols, rows }),
        Some(ZoneFault::OutOfBounds) => Err(
            MapError::ZoneOutOfBounds { zone, index, cols, rows, grid_cols: m.grid_cols, grid_rows: m.grid_rows },
        ),
        None => Ok(()),
    }
}

pub fn validate_actor_spawn_zones(m: &MapDef) -> (res: Result<(), MapError>)
    ensures
        res is Ok <==> actor_zones_ok(*m),
        res matches Err(e) ==> error_holds(*m, e) && error_stage(e) == 3,
{
    let mut i: usize = 0;
    while i < m.actor_spawn_zones.len()
        invariant
            i <= m.actor_spawn_zones@.len(),
            forall|k: int|
                0 <= k < i ==> {
                    let z = #[trigger] m.actor_spawn_zones@[k];
                    &&& (z.level as int) < m.levels@.len()
                    &&& zone_range_ok(z.cols, z.rows, m.grid_cols as int, m.grid_rows as int)
                    &&& z.kind@.len() > 0
                },
        decreases m.actor_spawn_zones@.len() - i,
    {
        let zone = &m.actor_spawn_zones[i];
        validate_zone_placement(ZoneList::Actor, i, zone.level, zone.cols, zone.rows, m)?;
        if zone.kind.as_str().is_empty() {
            return Err(MapError::ZoneEmptyKind { index: i });
        }
        i = i + 1;
    }
    Ok(())
}

pub fn validate_player_spawn_zones(m: &MapDef) -> (res: Result<(), MapError>)
    ensures
        res is Ok <==> player_zones_ok(*m),
        res matches Err(e) ==> error_holds(*m, e) && error_stage(e) == 4,
{
    let mut i: usize = 0;
    while i < m.player_spawn_zones.len()
        invariant
            i <= m.player_spawn_zones@.len(),
            forall|k: int|
                0 <= k < i ==> {
                    let z = #[trigger] m.player_spawn_zones@[k];
                    &&& (z.level as int) < m.levels@.len()
                    &&& zone_range_ok(z.cols, z.rows, m.grid_cols as int, m.grid_rows as int)
                },
        decreases m.player_spawn_zones@.len() - i,
    {
        let zone = &m.player_spawn_zones[i];
        validate_zone_placement(ZoneList::Player, i, zone.level, zone.cols, zone.rows, m)?;
        i = i + 1;
    }
    Ok(())
}

// ---------------------------------------------------------------------------
// Levels
// ---------------------------------------------------------------------------

/// `mask` marks exactly the cells listed in `cells`.
pub open spec fn mask_lists(mask: Seq<Vec<bool>>, cells: Seq<CellDef>, grid_cols: int, grid_rows: int) -> bool {
    &&& bool_rows_shape(mask, grid_cols, grid_rows)
    &&& forall|c: int, r: int|
        #![trigger mask[r]@[c]]
        0 <= c < grid_cols && 0 <= r < grid_rows ==> (mask[r]@[c] <==> exists|j: int|
            0 <= j < cells.len() && floor_cell(#[trigger] cells[j]) == (c as i32, r as i32))
}

/// Checks one cell list of a level, each entry on the grid, not listed
/// before, and (for inaccessible floors) not a floor; returns the mask of
/// the listed cells.
pub fn validate_cell_list(m: &MapDef, level: usize, list: FloorList, floors: Option<&Vec<Vec<bool>>>) -> (res:
    Result<Vec<Vec<bool>>, MapError>)
    requires
        m.grid_cols > 0,
        m.grid_rows > 0,
        level < m.levels@.len(),
        floors matches Some(f) ==> mask_lists(f@, m.levels@[level as int].floors@, m.grid_cols as int, m.grid_rows as int),
        floors is Some ==> list == FloorList::InaccessibleFloors,
    ensures
        res is Ok <==> (cells_ok(list_cells(m.levels@[level as int], list), m.grid_cols as int, m.grid_rows as int)
            && (floors is Some ==> forall|i: int, j: int|
            0 <= i < list_cells(m.levels@[level as int], list).len() && 0 <= j < m.levels@[level as int].floors@.len()
                ==> floor_cell(#[trigger] list_cells(m.levels@[level as int], list)[i]) != floor_cell(
                #[trigger] m.levels@[level as int].floors@[j],
            ))),
        res matches Ok(mask) ==> mask_lists(
            mask@,
            list_cells(m.levels@[level as int], list),
            m.grid_cols as int,
            m.grid_rows as int,
        ),
        res matches Err(e) ==> error_holds(*m, e) && error_stage(e) == 5 && error_level(e) == level,
{
    let lvl = &m.levels[level];
    let cells: &Vec<CellDef> = match list {
        FloorList::Floors => &lvl.floors,
        FloorList::InaccessibleFloors => &lvl.inaccessible_floors,
        FloorList::Terrain => &lvl.terrain,
    };
    let ghost cs = list_cells(m.levels@[level as int], list);
    assert(cells@ == cs);
    let grid_cols = m.grid_cols;
    let grid_rows = m.grid_rows;
    let mut mask = false_rows(grid_cols as usize, grid_rows as usize);
    let mut i: usize = 0;
    while i < cells.len()
        invariant
            i <= cells@.len(),
            cells@ == cs,
            cs == list_cells(m.levels@[level as int], list),
            grid_cols == m.grid_cols,
            grid_rows == m.grid_rows,
            grid_cols > 0,
            grid_rows > 0,
            level < m.levels@.len(),
            lvl == m.levels@[level as int],
            floors matches Some(f) ==> mask_lists(f@, lvl.floors@, grid_cols as int, grid_rows as int),
            floors is Some ==> list == FloorList::InaccessibleFloors,
            mask_lists(mask@, cs.take(i as int), grid_cols as int, grid_rows as int),
            cells_ok(cs.take(i as int), grid_cols as int, grid_rows as int),
            floors is Some ==> forall|a: int, j: int|
                0 <= a < i && 0 <= j < lvl.floors@.len() ==> floor_cell(#[trigger] cs[a]) != floor_cell(
                    #[trigger] lvl.floors@[j],
                ),
        decreases cells@.len() - i,
    {
        let cell = cells[i];
        let ghost prefix = cs.take(i as int);
        assert(cs.take(i as int + 1) == prefix.push(cell));
        if !validate_floor([cell.col, cell.row], grid_cols, grid_rows) {
            return Err(
                MapError::FloorOutOfBounds {
                    level,
                    name: lvl.name.clone(),
                    list,
                    index: i,
                    cell: [cell.col, cell.row],
                    grid_cols,
                    grid_rows,
                },
            );
        }
        let r = cell.row as usize;
        let c = cell.col as usize;
        if mask[r][c] {
            proof {
                assert(mask@[r as int]@[c as int]);
                let j = choose|j: int|
                    0 <= j < prefix.len() && floor_cell(#[trigger] prefix[j]) == (c as i32, r as i32);
                assert(cs[j] == prefix[j]);
                assert(floor_cell(cs[j]) == floor_cell(cs[i as int]));
            }
            return Err(
                MapError::DuplicateFloor { level, name: lvl.name.clone(), list, cell: [cell.col, cell.row] },
            );
        }
        match floors {
            Some(f) => {
                if f[r][c] {
                    proof {
                        assert(f@[r as int]@[c as int]);
                        let j = choose|j: int|
                            0 <= j < lvl.floors@.len() && floor_cell(#[trigger] lvl.floors@[j]) == (
                                c as i32,
                                r as i32,
                            );
                        assert(lvl.inaccessible_floors@[i as int] == cell);
                    }
                    return Err(
                        MapError::InaccessibleOverlapsFloor {
                            level,
                            name: lvl.name.clone(),
                            cell: [cell.col, cell.row],
                        },
                    );
                }
            },
            None => {},
        }
        let ghost before = mask@;
        mask[r][c] = true;
        proof {
            let next = cs.take(i as int + 1);
            assert forall|cc: int, rr: int|
                #![trigger mask@[rr]@[cc]]
                0 <= cc < grid_cols && 0 <= rr < grid_rows implies (mask@[rr]@[cc] <==> exists|j: int|
                    0 <= j < next.len() && floor_cell(#[trigger] next[j]) == (cc as i32, rr as i32)) by {
                if mask@[rr]@[cc] {
                    if rr == r && cc == c {
                        assert(next[i as int] == cell);
                    } else {
                        assert(before[rr]@[cc]);
                        let j = choose|j: int|
                            0 <= j < prefix.len() && floor_cell(#[trigger] prefix[j]) == (cc as i32, rr as i32);
                        assert(next[j] == prefix[j]);
                    }
                }
                if exists|j: int| 0 <= j < next.len() && floor_cell(#[trigger] next[j]) == (cc as i32, rr as i32) {
                    let j = choose|j: int|
                        0 <= j < next.len() && floor_cell(#[trigger] next[j]) == (cc as i32, rr as i32);
                    if j < i {
                        assert(prefix[j] == next[j]);
                        assert(before[rr]@[cc]);
                    }
                }
            }
            assert forall|a: int, b: int| 0 <= a < b < next.len() implies floor_cell(#[trigger] next[a]) != floor_cell(
                #[trigger] next[b],
            ) by {
                if b == i {
                    assert(next[a] == prefix[a]);
                    if floor_cell(next[a]) == floor_cell(next[b]) {
                        assert(before[r as int]@[c as int]);
                    }
                } else {
                    assert(next[a] == prefix[a]);
                    assert(next[b] == prefix[b]);
                }
            }
            assert forall|a: int| 0 <= a < next.len() implies cell_in_grid(
                floor_cell(#[trigger] next[a]),
                grid_cols as int,
                grid_rows as int,
            ) by {
                if a < i {
                    assert(next[a] == prefix[a]);
                }
            }
        }
        i = i + 1;
    }
    assert(cs.take(cells@.len() as int) == cs);
    Ok(mask)
}


/// `grid` has the map's shape and marks exactly the slots of `edges`.
pub open spec fn grid_lists(grid: EdgeGrid, edges: Seq<[i32; 4]>, grid_cols: int, grid_rows: int) -> bool {
    &&& grid.has_shape(grid_cols, grid_rows)
    &&& forall|t: (bool, int, int)|
        #![trigger slot_set(grid, t)]
        slot_in(grid, t) ==> (slot_set(grid, t) <==> exists|j: int|
            0 <= j < edges.len() && edge_slot(#[trigger] edges[j]) == t)
}

/// The authored edge `index` of list `list` on level `level`, as written.
pub fn edge_at(lvl: &LevelDef, list: EdgeList, index: usize) -> (e: [i32; 4])
    requires
        index < list_edges(*lvl, list).len(),
    ensures
        e == list_edges(*lvl, list)[index as int],
{
    match list {
        EdgeList::Walls => {
            let w = lvl.walls[index];
            [w.c0, w.r0, w.c1, w.r1]
        },
        EdgeList::Barriers => {
            let b = &lvl.barriers[index];
            [b.c0, b.r0, b.c1, b.r1]
        },
    }
}

/// Checks one edge list of a level: each edge valid, not listed before, and
/// (for barriers) not on a wall; returns the grid of the listed edges.
pub fn validate_edge_list(m: &MapDef, level: usize, list: EdgeList, walls: Option<&EdgeGrid>) -> (res: Result<
    EdgeGrid,
    MapError,
>)
    requires
        m.grid_cols > 0,
        m.grid_rows > 0,
        level < m.levels@.len(),
        walls matches Some(w) ==> grid_lists(*w, level_walls(m.levels@[level as int]), m.grid_cols as int, m.grid_rows as int),
        walls matches Some(w) ==> edges_ok(level_walls(m.levels@[level as int]), m.grid_cols as int, m.grid_rows as int),
        walls is Some ==> list == EdgeList::Barriers,
    ensures
        res is Ok <==> (edges_ok(list_edges(m.levels@[level as int], list), m.grid_cols as int, m.grid_rows as int)
            && (walls is Some ==> forall|i: int, j: int|
            0 <= i < list_edges(m.levels@[level as int], list).len() && 0 <= j < level_walls(
                m.levels@[level as int],
            ).len() ==> norm_key(#[trigger] list_edges(m.levels@[level as int], list)[i]) != norm_key(
                #[trigger] level_walls(m.levels@[level as int])[j],
            ))),
        res matches Ok(g) ==> grid_lists(
            g,
            list_edges(m.levels@[level as int], list),
            m.grid_cols as int,
            m.grid_rows as int,
        ),
        res matches Err(e) ==> error_holds(*m, e) && error_stage(e) == 5 && error_level(e) == level,
{
    let lvl = &m.levels[level];
    let ghost es = list_edges(m.levels@[level as int], list);
    let ghost ws = level_walls(m.levels@[level as int]);
    let count = match list {
        EdgeList::Walls => lvl.walls.len(),
        EdgeList::Barriers => lvl.barriers.len(),
    };
    let grid_cols = m.grid_cols;
    let grid_rows = m.grid_rows;
    let mut seen = EdgeGrid::new(grid_cols, grid_rows);
    proof {
        assert forall|t: (bool, int, int)| #![trigger slot_set(seen, t)] slot_in(seen, t) implies (slot_set(seen, t)
            <==> exists|j: int| 0 <= j < es.take(0).len() && edge_slot(#[trigger] es.take(0)[j]) == t) by {
            if t.0 {
                assert(!seen.h(t.1, t.2));
            } else {
                assert(!seen.v(t.1, t.2));
            }
        }
    }
    let mut i: usize = 0;
    while i < count
        invariant
            i <= count,
            count == es.len(),
            es == list_edges(m.levels@[level as int], list),
            ws == level_walls(m.levels@[level as int]),
            grid_cols == m.grid_cols,
            grid_rows == m.grid_rows,
            grid_cols > 0,
            grid_rows > 0,
            level < m.levels@.len(),
            lvl == m.levels@[level as int],
            walls matches Some(w) ==> grid_lists(*w, ws, grid_cols as int, grid_rows as int),
            walls matches Some(w) ==> edges_ok(ws, grid_cols as int, grid_rows as int),
            walls is Some ==> list == EdgeList::Barriers,
            grid_lists(seen, es.take(i as int), grid_cols as int, grid_rows as int),
            edges_ok(es.take(i as int), grid_cols as int, grid_rows as int),
            walls is Some ==> forall|a: int, j: int|
                0 <= a < i && 0 <= j < ws.len() ==> norm_key(#[trigger] es[a]) != norm_key(#[trigger] ws[j]),
        decreases count - i,
    {
        let edge = edge_at(lvl, list, i);
        let ghost prefix = es.take(i as int);
        assert(es.take(i as int + 1) == prefix.push(edge));
        match validate_wall(edge, grid_cols, grid_rows) {
            Some(EdgeFault::PointOutOfBounds(point)) => {
                return Err(
                    MapError::EdgePointOutOfBounds {
                        level,
                        name: lvl.name.clone(),
                        list,
                        index: i,
                        point,
                        grid_cols,
                        grid_rows,
                    },
                );
            },
            Some(EdgeFault::NotOneGridEdge) => {
                return Err(MapError::EdgeNotOneGridEdge { level, name: lvl.name.clone(), list, index: i, edge });
            },
            None => {},
        }
        let normalized = normalized_wall(edge);
        let slot = slot_of(edge);
        proof {
            lemma_valid_edge_slot_in(edge, seen, grid_cols as int, grid_rows as int);
        }
        match walls {
            Some(w) => {
                proof {
                    lemma_valid_edge_slot_in(edge, *w, grid_cols as int, grid_rows as int);
                }
                if slot_get(w, slot) {
                    proof {
                        let t = edge_slot(edge);
                        let j = choose|j: int| 0 <= j < ws.len() && edge_slot(#[trigger] ws[j]) == t;
                        lemma_slot_matches_normalized(edge, ws[j], grid_cols as int, grid_rows as int);
                        assert(lvl.barriers@.len() == es.len());
                    }
                    return Err(
                        MapError::BarrierOverlapsWall { level, name: lvl.name.clone(), index: i, edge: normalized },
                    );
                }
            },
            None => {},
        }
        if slot_get(&seen, slot) {
            proof {
                let t = edge_slot(edge);
                let j = choose|j: int| 0 <= j < prefix.len() && edge_slot(#[trigger] prefix[j]) == t;
                lemma_slot_matches_normalized(edge, prefix[j], grid_cols as int, grid_rows as int);
                assert(es[j] == prefix[j]);
                assert(es[i as int] == edge);
            }
            return Err(MapError::DuplicateEdge { level, name: lvl.name.clone(), list, edge: normalized });
        }
        let ghost before = seen;
        slot_put(&mut seen, slot);
        proof {
            let next = es.take(i as int + 1);
            let s = edge_slot(edge);
            assert forall|t: (bool, int, int)| #![trigger slot_set(seen, t)] slot_in(seen, t) implies (slot_set(
                seen,
                t,
            ) <==> exists|j: int| 0 <= j < next.len() && edge_slot(#[trigger] next[j]) == t) by {
                assert(slot_in(before, t));
                if slot_set(seen, t) && t != s {
                    assert(slot_set(before, t));
                    let j = choose|j: int| 0 <= j < prefix.len() && edge_slot(#[trigger] prefix[j]) == t;
                    assert(next[j] == prefix[j]);
                }
                if t == s {
                    assert(next[i as int] == edge);
                }
                if exists|j: int| 0 <= j < next.len() && edge_slot(#[trigger] next[j]) == t {
                    let j = choose|j: int| 0 <= j < next.len() && edge_slot(#[trigger] next[j]) == t;
                    if j < i {
                        assert(prefix[j] == next[j]);
                        assert(slot_set(before, t));
                    }
                }
            }
            assert forall|a: int, b: int| 0 <= a < b < next.len() implies norm_key(#[trigger] next[a]) != norm_key(
                #[trigger] next[b],
            ) by {
                assert(next[a] == prefix[a]);
                if b == i {
                    lemma_slot_matches_normalized(next[a], edge, grid_cols as int, grid_rows as int);
                    if norm_key(next[a]) == norm_key(next[b]) {
                        assert(slot_set(before, edge_slot(prefix[a])));
                    }
                } else {
                    assert(next[b] == prefix[b]);
                }
            }
            assert forall|a: int| 0 <= a < next.len() implies edge_valid(
                #[trigger] next[a],
                grid_cols as int,
                grid_rows as int,
            ) by {
                if a < i {
                    assert(next[a] == prefix[a]);
                }
            }
            if walls is Some {
                let w = walls->0;
                assert forall|a: int, j: int| 0 <= a < i + 1 && 0 <= j < ws.len() implies norm_key(
                    #[trigger] es[a],
                ) != norm_key(#[trigger] ws[j]) by {
                    if a == i {
                        lemma_slot_matches_normalized(edge, ws[j], grid_cols as int, grid_rows as int);
                        lemma_valid_edge_slot_in(ws[j], *w, grid_cols as int, grid_rows as int);
                        if norm_key(es[a]) == norm_key(ws[j]) {
                            assert(slot_set(*w, edge_slot(ws[j])));
                        }
                    }
                }
            }
        }
        i = i + 1;
    }
    assert(es.take(count as int) == es);
    Ok(seen)
}


/// Checks that no terrain cell of a level is also a floor or an
/// inaccessible floor, given the masks of both.
pub fn validate_terrain_apart(
    m: &MapDef,
    level: usize,
    floors: &Vec<Vec<bool>>,
    inaccessible: &Vec<Vec<bool>>,
) -> (res: Result<(), MapError>)
    requires
        m.grid_cols > 0,
        m.grid_rows > 0,
        level < m.levels@.len(),
        cells_ok(m.levels@[level as int].terrain@, m.grid_cols as int, m.grid_rows as int),
        mask_lists(floors@, m.levels@[level as int].floors@, m.grid_cols as int, m.grid_rows as int),
        mask_lists(inaccessible@, m.levels@[level as int].inaccessible_floors@, m.grid_cols as int, m.grid_rows as int),
    ensures
        res is Ok <==> (forall|i: int, j: int|
            0 <= i < m.levels@[level as int].terrain@.len() && 0 <= j < m.levels@[level as int].floors@.len() ==> floor_cell(
                #[trigger] m.levels@[level as int].terrain@[i],
            ) != floor_cell(#[trigger] m.levels@[level as int].floors@[j])) && (forall|i: int, j: int|
            0 <= i < m.levels@[level as int].terrain@.len() && 0 <= j < m.levels@[level as int].inaccessible_floors@.len()
                ==> floor_cell(#[trigger] m.levels@[level as int].terrain@[i]) != floor_cell(
                #[trigger] m.levels@[level as int].inaccessible_floors@[j],
            )),
        res matches Err(e) ==> error_holds(*m, e) && error_stage(e) == 5 && error_level(e) == level,
{
    let lvl = &m.levels[level];
    let ghost l = m.levels@[level as int];
    let mut i: usize = 0;
    while i < lvl.terrain.len()
        invariant
            i <= lvl.terrain@.len(),
            *lvl == l,
            l == m.levels@[level as int],
            level < m.levels@.len(),
            cells_ok(l.terrain@, m.grid_cols as int, m.grid_rows as int),
            mask_lists(floors@, l.floors@, m.grid_cols as int, m.grid_rows as int),
            mask_lists(inaccessible@, l.inaccessible_floors@, m.grid_cols as int, m.grid_rows as int),
            forall|a: int, j: int|
                0 <= a < i && 0 <= j < l.floors@.len() ==> floor_cell(#[trigger] l.terrain@[a]) != floor_cell(
                    #[trigger] l.floors@[j],
                ),
            forall|a: int, j: int|
                0 <= a < i && 0 <= j < l.inaccessible_floors@.len() ==> floor_cell(#[trigger] l.terrain@[a])
                    != floor_cell(#[trigger] l.inaccessible_floors@[j]),
        decreases lvl.terrain@.len() - i,
    {
        let cell = lvl.terrain[i];
        proof {
            assert(cell_in_grid(floor_cell(l.terrain@[i as int]), m.grid_cols as int, m.grid_rows as int));
        }
        let r = cell.row as usize;
        let c = cell.col as usize;
        if floors[r][c] || inaccessible[r][c] {
            proof {
                assert(floors@[r as int]@[c as int] == floors@[cell.row as int]@[cell.col as int]);
                assert(l.terrain@[i as int] == cell);
            }
            return Err(MapError::TerrainOverlapsFloor { level, name: lvl.name.clone(), cell: [cell.col, cell.row] });
        }
        proof {
            assert forall|j: int| 0 <= j < l.floors@.len() implies floor_cell(l.terrain@[i as int]) != floor_cell(
                #[trigger] l.floors@[j],
            ) by {
                assert(!floors@[cell.row as int]@[cell.col as int]);
            }
            assert forall|j: int| 0 <= j < l.inaccessible_floors@.len() implies floor_cell(l.terrain@[i as int])
                != floor_cell(#[trigger] l.inaccessible_floors@[j]) by {
                assert(!inaccessible@[cell.row as int]@[cell.col as int]);
            }
        }
        i = i + 1;
    }
    Ok(())
}

/// Checks one level: at least one floor; floors, inaccessible floors,
/// terrain (its own slab, apart from both), walls and barriers each in turn.
pub fn validate_level(m: &MapDef, level: usize) -> (res: Result<(), MapError>)
    requires
        m.grid_cols > 0,
        m.grid_rows > 0,
        level < m.levels@.len(),
    ensures
        res is Ok <==> level_ok(m.levels@[level as int], m.grid_cols as int, m.grid_rows as int),
        res matches Err(e) ==> error_holds(*m, e) && error_stage(e) == 5 && error_level(e) == level,
{
    let lvl = &m.levels[level];
    if lvl.floors.len() == 0 {
        return Err(MapError::LevelWithoutFloor { level, name: lvl.name.clone() });
    }
    let floors = validate_cell_list(m, level, FloorList::Floors, None)?;
    let inaccessible = validate_cell_list(m, level, FloorList::InaccessibleFloors, Some(&floors))?;
    let _terrain = validate_cell_list(m, level, FloorList::Terrain, None)?;
    validate_terrain_apart(m, level, &floors, &inaccessible)?;
    let walls = validate_edge_list(m, level, EdgeList::Walls, None)?;
    let _barriers = validate_edge_list(m, level, EdgeList::Barriers, Some(&walls))?;
    Ok(())
}

pub fn validate_levels(m: &MapDef) -> (res: Result<(), MapError>)
    requires
        m.grid_cols > 0,
        m.grid_rows > 0,
    ensures
        res is Ok <==> forall|i: int|
            0 <= i < m.levels@.len() ==> level_ok(#[trigger] m.levels@[i], m.grid_cols as int, m.grid_rows as int),
        res matches Err(e) ==> error_holds(*m, e) && error_stage(e) == 5 && forall|i: int|
            0 <= i < error_level(e) ==> level_ok(#[trigger] m.levels@[i], m.grid_cols as int, m.grid_rows as int),
{
    let mut i: usize = 0;
    while i < m.levels.len()
        invariant
            i <= m.levels@.len(),
            m.grid_cols > 0,
            m.grid_rows > 0,
            forall|k: int| 0 <= k < i ==> level_ok(#[trigger] m.levels@[k], m.grid_cols as int, m.grid_rows as int),
        decreases m.levels@.len() - i,
    {
        validate_level(m, i)?;
        i = i + 1;
    }
    Ok(())
}

/// What is wrong with a ramp, if anything, checked in the compiler's order.
pub fn validate_ramp(ramp: &RampDef, index: usize, m: &MapDef) -> (res: Result<(), MapError>)
    requires
        index < m.ramps@.len(),
        m.ramps@[index as int] == *ramp,
    ensures
        res is Ok <==> ramp_ok(*ramp, m.grid_cols as int, m.grid_rows as int, m.levels@.len() as int),
        res matches Err(e) ==> error_holds(*m, e) && error_stage(e) == 6,
{
    let level_count = m.levels.len();
    if ramp.lower_level as usize >= level_count || ramp.lower_level as usize + 1 >= level_count {
        return Err(MapError::RampWithoutUpperLevel { index, lower_level: ramp.lower_level, level_count });
    }
    if !validate_grid_point(ramp.low, m.grid_cols, m.grid_rows) {
        return Err(
            MapError::RampPointOutOfBounds {
                index,
                end: RampEnd::Low,
                point: ramp.low,
                grid_cols: m.grid_cols,
                grid_rows: m.grid_rows,
            },
        );
    }
    if !validate_grid_point(ramp.high, m.grid_cols, m.grid_rows) {
        return Err(
            MapError::RampPointOutOfBounds {
                index,
                end: RampEnd::High,
                point: ramp.high,
                grid_cols: m.grid_cols,
                grid_rows: m.grid_rows,
            },
        );
    }
    let dx = ramp.high[0] as i64 - ramp.low[0] as i64;
    let dz = ramp.high[1] as i64 - ramp.low[1] as i64;
    let width = if dx < 0 {
        -dx
    } else {
        dx
    };
    let height = if dz < 0 {
        -dz
    } else {
        dz
    };
    if width == 0 || height == 0 {
        return Err(MapError::RampEmptyFootprint { index });
    }
    if width == height {
        return Err(MapError::RampSquareFootprint { index });
    }
    Ok(())
}

pub fn validate_ramps(m: &MapDef) -> (res: Result<(), MapError>)
    ensures
        res is Ok <==> ramps_ok(*m),
        res matches Err(e) ==> error_holds(*m, e) && error_stage(e) == 6,
{
    let mut i: usize = 0;
    while i < m.ramps.len()
        invariant
            i <= m.ramps@.len(),
            forall|k: int|
                0 <= k < i ==> ramp_ok(
                    #[trigger] m.ramps@[k],
                    m.grid_cols as int,
                    m.grid_rows as int,
                    m.levels@.len() as int,
                ),
            forall|a: int, b: int| 0 <= a < b < i ==> !same_ramp(#[trigger] m.ramps@[a], #[trigger] m.ramps@[b]),
        decreases m.ramps@.len() - i,
    {
        let ramp = &m.ramps[i];
        validate_ramp(ramp, i, m)?;
        let mut j: usize = 0;
        while j < i
            invariant
                j <= i < m.ramps@.len(),
                *ramp == m.ramps@[i as int],
                forall|k: int| 0 <= k < j ==> !same_ramp(#[trigger] m.ramps@[k], m.ramps@[i as int]),
            decreases i - j,
        {
            let other = &m.ramps[j];
            if other.lower_level == ramp.lower_level && other.low[0] == ramp.low[0] && other.low[1] == ramp.low[1]
                && other.high[0] == ramp.high[0] && other.high[1] == ramp.high[1] {
                proof {
                    assert(same_ramp(m.ramps@[j as int], m.ramps@[i as int]));
                    assert(0 <= j < i < m.ramps@.len() && m.ramps@[j as int].lower_level == ramp.lower_level
                        && pair(m.ramps@[j as int].low) == pair(ramp.low) && pair(m.ramps@[j as int].high) == pair(
                        ramp.high,
                    ) && same_ramp(m.ramps@[j as int], m.ramps@[i as int]));
                }
                return Err(MapError::DuplicateRamp { lower_level: ramp.lower_level, low: ramp.low, high: ramp.high });
            }
            j = j + 1;
        }
        i = i + 1;
    }
    Ok(())
}

/// Which check of `validate_map` an error comes from, in the order they
/// run: the grid, the level count, the player-zone count, actor zones,
/// player zones, storeys, ramps.
pub open spec fn error_stage(e: MapError) -> int {
    match e {
        MapError::GridNotPositive => 0,
        MapError::NoLevels => 1,
        MapError::NoPlayerSpawnZones => 2,
        MapError::ZoneLevelOutOfRange { zone, .. } => if zone == ZoneList::Actor { 3 } else { 4 },
        MapError::ZoneEmpty { zone, .. } => if zone == ZoneList::Actor { 3 } else { 4 },
        MapError::ZoneOutOfBounds { zone, .. } => if zone == ZoneList::Actor { 3 } else { 4 },
        MapError::ZoneEmptyKind { .. } => 3,
        MapError::LevelWithoutFloor { .. } => 5,
        MapError::FloorOutOfBounds { .. } => 5,
        MapError::DuplicateFloor { .. } => 5,
        MapError::InaccessibleOverlapsFloor { .. } => 5,
        MapError::TerrainOverlapsFloor { .. } => 5,
        MapError::EdgePointOutOfBounds { .. } => 5,
        MapError::EdgeNotOneGridEdge { .. } => 5,
        MapError::DuplicateEdge { .. } => 5,
        MapError::BarrierOverlapsWall { .. } => 5,
        MapError::RampWithoutUpperLevel { .. } => 6,
        MapError::RampPointOutOfBounds { .. } => 6,
        MapError::RampEmptyFootprint { .. } => 6,
        MapError::RampSquareFootprint { .. } => 6,
        MapError::DuplicateRamp { .. } => 6,
        _ => 7,
    }
}

/// The storey a storey error names.
pub open spec fn error_level(e: MapError) -> int {
    match e {
        MapError::LevelWithoutFloor { level, .. } => level as int,
        MapError::FloorOutOfBounds { level, .. } => level as int,
        MapError::DuplicateFloor { level, .. } => level as int,
        MapError::InaccessibleOverlapsFloor { level, .. } => level as int,
        MapError::TerrainOverlapsFloor { level, .. } => level as int,
        MapError::EdgePointOutOfBounds { level, .. } => level as int,
        MapError::EdgeNotOneGridEdge { level, .. } => level as int,
        MapError::DuplicateEdge { level, .. } => level as int,
        MapError::BarrierOverlapsWall { level, .. } => level as int,
        _ => -1,
    }
}

/// Check `k` of `validate_map` passes.
pub open spec fn stage_passes(m: MapDef, k: int) -> bool {
    if k == 0 {
        m.grid_cols > 0 && m.grid_rows > 0
    } else if k == 1 {
        m.levels@.len() > 0
    } else if k == 2 {
        m.player_spawn_zones@.len() > 0
    } else if k == 3 {
        actor_zones_ok(m)
    } else if k == 4 {
        player_zones_ok(m)
    } else if k == 5 {
        forall|i: int| 0 <= i < m.levels@.len() ==> level_ok(#[trigger] m.levels@[i], m.grid_cols as int, m.grid_rows as int)
    } else {
        ramps_ok(m)
    }
}

/// `e` is the error `validate_map` meets first: every earlier check
/// passes, and a storey error comes after every earlier storey passed.
pub open spec fn first_error(m: MapDef, e: MapError) -> bool {
    &&& error_holds(m, e)
    &&& forall|k: int| 0 <= k < error_stage(e) ==> #[trigger] stage_passes(m, k)
    &&& error_stage(e) == 5 ==> forall|i: int|
        0 <= i < error_level(e) ==> level_ok(#[trigger] m.levels@[i], m.grid_cols as int, m.grid_rows as int)
}

/// Checks a whole map in the compiler's order: the grid size, the level and
/// player-zone counts, then actor zones, player zones, levels and ramps.
pub fn validate_map(m: &MapDef) -> (res: Result<(), MapError>)
    ensures
        res is Ok <==> map_valid(*m),
        res matches Err(e) ==> first_error(*m, e),
{
    if m.grid_cols <= 0 || m.grid_rows <= 0 {
        return Err(MapError::GridNotPositive);
    }
    if m.levels.len() == 0 {
        return Err(MapError::NoLevels);
    }
    if m.player_spawn_zones.len() == 0 {
        return Err(MapError::NoPlayerSpawnZones);
    }
    validate_actor_spawn_zones(m)?;
    validate_player_spawn_zones(m)?;
    validate_levels(m)?;
    let r = validate_ramps(m);
    proof {
        assert forall|k: int| 0 <= k < 6 implies #[trigger] stage_passes(*m, k) by {}
    }
    r
}

} // verus!
