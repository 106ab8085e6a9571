//! One map's grid-space compilation: its level grids, barrier runs,
//! light-bridge rectangles, plates, items, spawn zones and the wall lights
//! that find a wall, with every authored name resolved against the tables.
use vstd::prelude::*;

use crate::grid::{Cell, CellGrid, EdgeGrid, LevelGrid, bool_rows_shape};
use crate::mask::{Mask, empty_mask, mark_has_floor, mark_has_floor_above, mark_has_floor_slab, marked, FloorFlag, with_flag};
use crate::floors::{SlabPlan, emit_floor_tier, tier_plans};
use crate::ramps::{RampDirection, RampSpec, span, apply_to_level_cells, ramp_spec_from_def, slope_at, slope_below, spec_ramp_from_def, with_ramps};
use crate::barrier_merge::{merge_barriers, merged_layout};
use crate::barriers::{BarrierEdge, BarrierRun, full_span, keys_unique, run_key, run_starts_with, stack_barriers, starts};
use crate::error::{MapError, SwitchUse};
use crate::edges::{CellSide, edge_on_side, has_edge_on_cell_side, lemma_cell_sides_in};
use crate::grid::{ActorSpawnZone, PlacedItem, PlayerSpawnZone, PressurePlateRuntime};
use crate::ids::ItemType;
use crate::schema::{ActorSpawnZoneDef, ItemDef, PlayerSpawnZoneDef, WallLightDef, WallSide};
use crate::bridges::{BridgeRect, covered_by, fits_kind_left, input_has, kind_left_after, merge_light_bridges, preferred};
use crate::ids::{BarrierKindId, BridgeKindId, CarrierId, SwitchId};
use crate::schema::{BarrierDef, CellDef, LevelDef, LightBridgeDef, MapDef, WallDef};
use crate::tables::{NameTable, name_index};
use crate::validation::{
    edge_slot, edge_valid, lemma_valid_edge_slot_in, level_ok, map_valid, slot_in, slot_of, slot_put, slot_set,
    wall_edge,
};

verus! {

/// The level tag of a storey: its index, or the last tag a `u8` can name.
pub fn level_tag(level_idx: usize) -> (tag: u8)
    ensures
        tag as int == if level_idx < 255 {
            level_idx as int
        } else {
            255
        },
{
    if level_idx < 255 {
        level_idx as u8
    } else {
        255
    }
}

/// `cells` lists cell `(row, col)`.
pub open spec fn listed(cells: Seq<CellDef>, row: int, col: int) -> bool {
    exists|i: int| 0 <= i < cells.len() && (#[trigger] cells[i]).row == row && cells[i].col == col
}

/// Every listed cell lies on the grid.
pub open spec fn cells_in_grid(cells: Seq<CellDef>, grid_cols: int, grid_rows: int) -> bool {
    forall|i: int|
        0 <= i < cells.len() ==> 0 <= (#[trigger] cells[i]).col < grid_cols && 0 <= cells[i].row < grid_rows
}

/// Mark every cell of `cells` in `mask`.
pub fn mark_cells(mask: &mut Mask, cells: &Vec<CellDef>, grid_cols: i32, grid_rows: i32)
    requires
        bool_rows_shape(old(mask)@, grid_cols as int, grid_rows as int),
        cells_in_grid(cells@, grid_cols as int, grid_rows as int),
    ensures
        bool_rows_shape(final(mask)@, grid_cols as int, grid_rows as int),
        forall|r: int, c: int|
            0 <= r < grid_rows && 0 <= c < grid_cols ==> #[trigger] final(mask)@[r]@[c] == (old(mask)@[r]@[c] || listed(
                cells@,
                r,
                c,
            )),
{
    let mut k: usize = 0;
    while k < cells.len()
        invariant
            k <= cells@.len(),
            bool_rows_shape(mask@, grid_cols as int, grid_rows as int),
            cells_in_grid(cells@, grid_cols as int, grid_rows as int),
            forall|r: int, c: int|
                0 <= r < grid_rows && 0 <= c < grid_cols ==> #[trigger] mask@[r]@[c] == (old(mask)@[r]@[c] || exists|i: int|
                    0 <= i < k && (#[trigger] cells@[i]).row == r && cells@[i].col == c),
        decreases cells@.len() - k,
    {
        let cell = cells[k];
        proof {
            assert(0 <= cells@[k as int].col < grid_cols && 0 <= cells@[k as int].row < grid_rows);
            assert(mask@[cell.row as int]@.len() == grid_cols);
        }
        let ghost prev = mask@;
        mask[cell.row as usize].set(cell.col as usize, true);
        proof {
            assert forall|r: int, c: int| 0 <= r < grid_rows && 0 <= c < grid_cols implies #[trigger] mask@[r]@[c] == (
            old(mask)@[r]@[c] || exists|i: int| 0 <= i < k + 1 && (#[trigger] cells@[i]).row == r && cells@[i].col == c) by {
                assert(prev[r]@[c] == (old(mask)@[r]@[c] || exists|i: int|
                    0 <= i < k && (#[trigger] cells@[i]).row == r && cells@[i].col == c));
                if r == cell.row && c == cell.col {
                    assert(cells@[k as int].row == r && cells@[k as int].col == c);
                } else {
                    assert(mask@[r]@[c] == prev[r]@[c]);
                }
            }
            assert forall|r: int| 0 <= r < grid_rows implies #[trigger] mask@[r]@.len() == grid_cols by {
                assert(prev[r]@.len() == grid_cols);
            }
        }
        k = k + 1;
    }
}

/// The cells of level `l` with a standable floor: its floors and terrain.
pub open spec fn regular_at(m: MapDef, l: int, row: int, col: int) -> bool {
    listed(m.levels@[l].floors@, row, col) || listed(m.levels@[l].terrain@, row, col)
}

/// The cells of level `l` with a floor slab: floors, inaccessible floors
/// and terrain.
pub open spec fn slab_at(m: MapDef, l: int, row: int, col: int) -> bool {
    listed(m.levels@[l].floors@, row, col) || listed(m.levels@[l].inaccessible_floors@, row, col) || listed(
        m.levels@[l].terrain@,
        row,
        col,
    )
}

/// The map's cells are all on its grid.
pub open spec fn map_cells_fit(m: MapDef) -> bool {
    forall|l: int|
        0 <= l < m.levels@.len() ==> {
            &&& cells_in_grid((#[trigger] m.levels@[l]).floors@, m.grid_cols as int, m.grid_rows as int)
            &&& cells_in_grid(m.levels@[l].inaccessible_floors@, m.grid_cols as int, m.grid_rows as int)
            &&& cells_in_grid(m.levels@[l].terrain@, m.grid_cols as int, m.grid_rows as int)
        }
}

/// The mask of level `l` of the given kind: regular floors, or slabs.
pub open spec fn level_mask_ok(m: MapDef, l: int, mask: Seq<Vec<bool>>, slab: bool) -> bool {
    &&& bool_rows_shape(mask, m.grid_cols as int, m.grid_rows as int)
    &&& forall|r: int, c: int|
        0 <= r < m.grid_rows && 0 <= c < m.grid_cols ==> #[trigger] mask[r]@[c] == if slab {
            slab_at(m, l, r, c)
        } else {
            regular_at(m, l, r, c)
        }
}

/// The regular-floor masks and the slab masks of every level.
pub fn floor_masks(m: &MapDef) -> (masks: (Vec<Mask>, Vec<Mask>))
    requires
        m.grid_cols > 0,
        m.grid_rows > 0,
        map_cells_fit(*m),
    ensures
        masks.0@.len() == m.levels@.len(),
        masks.1@.len() == m.levels@.len(),
        forall|l: int| 0 <= l < m.levels@.len() ==> level_mask_ok(*m, l, (#[trigger] masks.0@[l])@, false),
        forall|l: int| 0 <= l < m.levels@.len() ==> level_mask_ok(*m, l, (#[trigger] masks.1@[l])@, true),
{
    let mut regular: Vec<Mask> = Vec::new();
    let mut slabs: Vec<Mask> = Vec::new();
    let mut l: usize = 0;
    while l < m.levels.len()
        invariant
            l <= m.levels@.len(),
            m.grid_cols > 0,
            m.grid_rows > 0,
            map_cells_fit(*m),
            regular@.len() == l,
            slabs@.len() == l,
            forall|j: int| 0 <= j < l ==> level_mask_ok(*m, j, (#[trigger] regular@[j])@, false),
            forall|j: int| 0 <= j < l ==> level_mask_ok(*m, j, (#[trigger] slabs@[j])@, true),
        decreases m.levels@.len() - l,
    {
        let level = &m.levels[l];
        proof {
            assert(cells_in_grid(m.levels@[l as int].floors@, m.grid_cols as int, m.grid_rows as int));
        }
        let mut reg = empty_mask(m.grid_cols, m.grid_rows);
        let ghost r0 = reg@;
        mark_cells(&mut reg, &level.floors, m.grid_cols, m.grid_rows);
        let ghost r1 = reg@;
        mark_cells(&mut reg, &level.terrain, m.grid_cols, m.grid_rows);
        let mut slab = empty_mask(m.grid_cols, m.grid_rows);
        let ghost s0 = slab@;
        mark_cells(&mut slab, &level.floors, m.grid_cols, m.grid_rows);
        let ghost s1 = slab@;
        mark_cells(&mut slab, &level.inaccessible_floors, m.grid_cols, m.grid_rows);
        let ghost s2 = slab@;
        mark_cells(&mut slab, &level.terrain, m.grid_cols, m.grid_rows);
        proof {
            assert forall|r: int, c: int| 0 <= r < m.grid_rows && 0 <= c < m.grid_cols implies #[trigger] reg@[r]@[c]
                == regular_at(*m, l as int, r, c) by {
                assert(!crate::mask::mask_at(r0, r, c));
                assert(r1[r]@[c] == (r0[r]@[c] || listed(level.floors@, r, c)));
            }
            assert forall|r: int, c: int| 0 <= r < m.grid_rows && 0 <= c < m.grid_cols implies #[trigger] slab@[r]@[c]
                == slab_at(*m, l as int, r, c) by {
                assert(!crate::mask::mask_at(s0, r, c));
                assert(s1[r]@[c] == (s0[r]@[c] || listed(level.floors@, r, c)));
                assert(s2[r]@[c] == (s1[r]@[c] || listed(level.inaccessible_floors@, r, c)));
            }
        }
        regular.push(reg);
        slabs.push(slab);
        l = l + 1;
    }
    (regular, slabs)
}

/// Set the grid edge `edge` in `edges`.
pub fn set_edge(edges: &mut EdgeGrid, edge: [i32; 4], grid_cols: i32, grid_rows: i32)
    requires
        old(edges).has_shape(grid_cols as int, grid_rows as int),
        edge_valid(edge, grid_cols as int, grid_rows as int),
    ensures
        final(edges).has_shape(grid_cols as int, grid_rows as int),
        forall|t: (bool, int, int)|
            #![trigger slot_set(*final(edges), t)]
            slot_in(*old(edges), t) ==> slot_set(*final(edges), t) == (slot_set(*old(edges), t) || t == edge_slot(edge)),
{
    proof {
        lemma_valid_edge_slot_in(edge, *edges, grid_cols as int, grid_rows as int);
    }
    let s = slot_of(edge);
    slot_put(edges, s);
}

/// The edge an authored barrier lies on.
pub open spec fn barrier_edge(b: BarrierDef) -> [i32; 4] {
    [b.c0, b.r0, b.c1, b.r1]
}

/// A wall of the level lies in slot `t`.
pub open spec fn wall_at(level: LevelDef, t: (bool, int, int)) -> bool {
    exists|i: int| 0 <= i < level.walls@.len() && edge_slot(wall_edge(#[trigger] level.walls@[i])) == t
}

/// `names` holds `name`.
pub open spec fn has_name(names: Seq<String>, name: Seq<char>) -> bool {
    exists|k: int| 0 <= k < names.len() && (#[trigger] names[k])@ == name
}

/// The barrier is switched by a switch some plate of the map tree names, so
/// actors may plan through it and wait for it to open.
pub open spec fn plated(plated_switches: Seq<String>, b: BarrierDef) -> bool {
    match b.switch {
        Some(name) => has_name(plated_switches, name@),
        None => false,
    }
}

/// A barrier no plate controls lies in slot `t`.
pub open spec fn fixed_barrier_at(level: LevelDef, plated_switches: Seq<String>, t: (bool, int, int)) -> bool {
    exists|i: int|
        0 <= i < level.barriers@.len() && !plated(plated_switches, #[trigger] level.barriers@[i]) && edge_slot(
            barrier_edge(level.barriers@[i]),
        ) == t
}

pub fn contains_name(names: &Vec<String>, name: &String) -> (found: bool)
    ensures
        found == has_name(names@, name@),
{
    let mut k: usize = 0;
    while k < names.len()
        invariant
            k <= names@.len(),
            forall|j: int| 0 <= j < k ==> (#[trigger] names@[j])@ != name@,
        decreases names@.len() - k,
    {
        if names[k] == *name {
            return true;
        }
        k = k + 1;
    }
    false
}

/// The compiled cell `(row, col)` of level `l`.
pub open spec fn compiled_cell(m: MapDef, ramps: Seq<RampSpec>, l: int, row: int, col: int) -> Cell {
    Cell {
        has_floor: regular_at(m, l, row, col),
        has_floor_slab: slab_at(m, l, row, col),
        has_floor_above: l + 1 < m.levels@.len() && slab_at(m, l + 1, row, col),
        has_ramp: slope_at(ramps, l, row, col),
        has_ramp_from_below: slope_below(ramps, l, row, col),
        ..Cell::empty()
    }
}

/// `grid` is level `l` of `m` compiled.
pub open spec fn level_compiled(
    m: MapDef,
    plated_switches: Seq<String>,
    ramps: Seq<RampSpec>,
    l: int,
    grid: LevelGrid,
) -> bool {
    &&& grid.has_shape(m.grid_cols as int, m.grid_rows as int)
    &&& forall|r: int, c: int|
        0 <= r < m.grid_rows && 0 <= c < m.grid_cols ==> #[trigger] grid.cells.cell(r, c) == compiled_cell(m, ramps, l, r, c)
    &&& forall|t: (bool, int, int)|
        #![trigger slot_set(grid.edges, t)]
        slot_in(grid.edges, t) ==> slot_set(grid.edges, t) == wall_at(m.levels@[l], t)
    &&& forall|t: (bool, int, int)|
        #![trigger slot_set(grid.barrier_edges, t)]
        slot_in(grid.barrier_edges, t) ==> slot_set(grid.barrier_edges, t) == fixed_barrier_at(
            m.levels@[l],
            plated_switches,
            t,
        )
}

/// The ramps of the map, as placed.
pub open spec fn map_ramps(m: MapDef) -> Seq<RampSpec> {
    m.ramps@.map_values(|r: crate::schema::RampDef| spec_ramp_from_def(r))
}

fn level_edges(m: &MapDef, l: usize, plated_switches: &Vec<String>) -> (grids: (EdgeGrid, EdgeGrid))
    requires
        map_valid(*m),
        l < m.levels@.len(),
    ensures
        grids.0.has_shape(m.grid_cols as int, m.grid_rows as int),
        grids.1.has_shape(m.grid_cols as int, m.grid_rows as int),
        forall|t: (bool, int, int)|
            #![trigger slot_set(grids.0, t)]
            slot_in(grids.0, t) ==> slot_set(grids.0, t) == wall_at(m.levels@[l as int], t),
        forall|t: (bool, int, int)|
            #![trigger slot_set(grids.1, t)]
            slot_in(grids.1, t) ==> slot_set(grids.1, t) == fixed_barrier_at(m.levels@[l as int], plated_switches@, t),
{
    let level = &m.levels[l];
    proof {
        assert(level_ok(m.levels@[l as int], m.grid_cols as int, m.grid_rows as int));
    }
    let mut walls = EdgeGrid::new(m.grid_cols, m.grid_rows);
    let ghost empty_walls = walls;
    let mut k: usize = 0;
    while k < level.walls.len()
        invariant
            k <= level.walls@.len(),
            *level == m.levels@[l as int],
            level_ok(*level, m.grid_cols as int, m.grid_rows as int),
            walls.has_shape(m.grid_cols as int, m.grid_rows as int),
            forall|t: (bool, int, int)|
                #![trigger slot_set(walls, t)]
                slot_in(walls, t) ==> slot_set(walls, t) == exists|i: int|
                    0 <= i < k && edge_slot(wall_edge(#[trigger] level.walls@[i])) == t,
        decreases level.walls@.len() - k,
    {
        let w = &level.walls[k];
        let edge = [w.c0, w.r0, w.c1, w.r1];
        proof {
            assert(crate::validation::level_walls(*level)[k as int] == wall_edge(level.walls@[k as int]));
            assert(edge == wall_edge(level.walls@[k as int]));
        }
        let ghost before = walls;
        set_edge(&mut walls, edge, m.grid_cols, m.grid_rows);
        proof {
            assert forall|t: (bool, int, int)| #![trigger slot_set(walls, t)] slot_in(walls, t) implies slot_set(walls, t)
                == exists|i: int| 0 <= i < k + 1 && edge_slot(wall_edge(#[trigger] level.walls@[i])) == t by {
                assert(slot_in(before, t));
                if t == edge_slot(edge) {
                    assert(edge_slot(wall_edge(level.walls@[k as int])) == t);
                }
            }
        }
        k = k + 1;
    }
    let mut barriers = EdgeGrid::new(m.grid_cols, m.grid_rows);
    let mut k: usize = 0;
    while k < level.barriers.len()
        invariant
            k <= level.barriers@.len(),
            *level == m.levels@[l as int],
            level_ok(*level, m.grid_cols as int, m.grid_rows as int),
            barriers.has_shape(m.grid_cols as int, m.grid_rows as int),
            forall|t: (bool, int, int)|
                #![trigger slot_set(barriers, t)]
                slot_in(barriers, t) ==> slot_set(barriers, t) == exists|i: int|
                    0 <= i < k && !plated(plated_switches@, #[trigger] level.barriers@[i]) && edge_slot(
                        barrier_edge(level.barriers@[i]),
                    ) == t,
        decreases level.barriers@.len() - k,
    {
        let b = &level.barriers[k];
        let edge = [b.c0, b.r0, b.c1, b.r1];
        let is_plated = match &b.switch {
            Some(name) => contains_name(plated_switches, name),
            None => false,
        };
        proof {
            assert(crate::validation::level_barriers(*level)[k as int] == barrier_edge(level.barriers@[k as int]));
            assert(edge == barrier_edge(level.barriers@[k as int]));
            assert(is_plated == plated(plated_switches@, level.barriers@[k as int]));
        }
        let ghost before = barriers;
        if !is_plated {
            set_edge(&mut barriers, edge, m.grid_cols, m.grid_rows);
        }
        proof {
            assert forall|t: (bool, int, int)| #![trigger slot_set(barriers, t)] slot_in(barriers, t) implies slot_set(
                barriers,
                t,
            ) == exists|i: int|
                0 <= i < k + 1 && !plated(plated_switches@, #[trigger] level.barriers@[i]) && edge_slot(
                    barrier_edge(level.barriers@[i]),
                ) == t by {
                assert(slot_in(before, t));
                if !is_plated && t == edge_slot(edge) {
                    assert(edge_slot(barrier_edge(level.barriers@[k as int])) == t);
                }
            }
        }
        k = k + 1;
    }
    (walls, barriers)
}

proof fn lemma_shape_kept(a: CellGrid, b: CellGrid, grid_cols: int, grid_rows: int)
    requires
        a.has_shape(grid_cols, grid_rows),
        crate::mask::same_shape(a, b),
    ensures
        b.has_shape(grid_cols, grid_rows),
{
    assert forall|r: int| 0 <= r < grid_rows implies #[trigger] b.rows@[r]@.len() == grid_cols by {
        assert(a.rows@[r]@.len() == grid_cols);
    }
}

/// Compile every level of the map into its grid: floors, slabs and the
/// slabs above from the masks, ramp flags, wall edges, and the barrier
/// edges no plate controls.
pub fn compile_level_grids(
    m: &MapDef,
    plated_switches: &Vec<String>,
    regular: &Vec<Mask>,
    slabs: &Vec<Mask>,
    ramps: &Vec<RampSpec>,
) -> (grids: Vec<LevelGrid>)
    requires
        map_valid(*m),
        m.levels@.len() <= 256,
        regular@.len() == m.levels@.len(),
        slabs@.len() == m.levels@.len(),
        forall|l: int| 0 <= l < m.levels@.len() ==> level_mask_ok(*m, l, (#[trigger] regular@[l])@, false),
        forall|l: int| 0 <= l < m.levels@.len() ==> level_mask_ok(*m, l, (#[trigger] slabs@[l])@, true),
        ramps@ == map_ramps(*m),
    ensures
        grids@.len() == m.levels@.len(),
        forall|l: int| 0 <= l < m.levels@.len() ==> level_compiled(*m, plated_switches@, ramps@, l, #[trigger] grids@[l]),
{
    let mut grids: Vec<LevelGrid> = Vec::new();
    let mut l: usize = 0;
    while l < m.levels.len()
        invariant
            l <= m.levels@.len(),
            map_valid(*m),
            m.levels@.len() <= 256,
            regular@.len() == m.levels@.len(),
            slabs@.len() == m.levels@.len(),
            forall|j: int| 0 <= j < m.levels@.len() ==> level_mask_ok(*m, j, (#[trigger] regular@[j])@, false),
            forall|j: int| 0 <= j < m.levels@.len() ==> level_mask_ok(*m, j, (#[trigger] slabs@[j])@, true),
            ramps@ == map_ramps(*m),
            grids@.len() == l,
            forall|j: int| 0 <= j < l ==> level_compiled(*m, plated_switches@, ramps@, j, #[trigger] grids@[j]),
        decreases m.levels@.len() - l,
    {
        let mut cells = CellGrid::new(m.grid_cols, m.grid_rows);
        let ghost c0 = cells;
        proof {
            assert(level_mask_ok(*m, l as int, regular@[l as int]@, false));
            assert(level_mask_ok(*m, l as int, slabs@[l as int]@, true));
        }
        mark_has_floor(&mut cells, &regular[l]);
        let ghost c1 = cells;
        proof {
            lemma_shape_kept(c0, c1, m.grid_cols as int, m.grid_rows as int);
        }
        mark_has_floor_slab(&mut cells, &slabs[l]);
        let ghost c2 = cells;
        proof {
            lemma_shape_kept(c1, c2, m.grid_cols as int, m.grid_rows as int);
        }
        apply_to_level_cells(&mut cells, ramps, l as u32);
        let ghost c3 = cells;
        proof {
            lemma_shape_kept(c2, c3, m.grid_cols as int, m.grid_rows as int);
        }
        if l + 1 < m.levels.len() {
            proof {
                assert(level_mask_ok(*m, l + 1, slabs@[l + 1]@, true));
            }
            mark_has_floor_above(&mut cells, &slabs[l + 1]);
            proof {
                lemma_shape_kept(c3, cells, m.grid_cols as int, m.grid_rows as int);
            }
        }
        let (edges, barrier_edges) = level_edges(m, l, plated_switches);
        let grid = LevelGrid { cells, edges, barrier_edges };
        proof {
            assert forall|r: int, c: int| 0 <= r < m.grid_rows && 0 <= c < m.grid_cols implies #[trigger] grid.cells.cell(
                r,
                c,
            ) == compiled_cell(*m, ramps@, l as int, r, c) by {
                assert(c0.cell(r, c) == Cell::empty());
                assert(c0.contains(r, c));
                assert(c1.cell(r, c) == if crate::mask::mask_at(regular@[l as int]@, r, c) {
                    with_flag(c0.cell(r, c), FloorFlag::Floor)
                } else {
                    c0.cell(r, c)
                });
                assert(regular@[l as int]@[r]@[c] == regular_at(*m, l as int, r, c));
                assert(c1.contains(r, c));
                assert(slabs@[l as int]@[r]@[c] == slab_at(*m, l as int, r, c));
                assert(c2.cell(r, c) == if crate::mask::mask_at(slabs@[l as int]@, r, c) {
                    with_flag(c1.cell(r, c), FloorFlag::FloorSlab)
                } else {
                    c1.cell(r, c)
                });
                assert(c2.contains(r, c));
                assert(c3.cell(r, c) == with_ramps(c2.cell(r, c), ramps@, l as int, r, c));
                if l + 1 < m.levels@.len() {
                    assert(slabs@[l + 1]@[r]@[c] == slab_at(*m, l + 1, r, c));
                    assert(c3.contains(r, c));
                }
            }
        }
        grids.push(grid);
        l = l + 1;
    }
    grids
}

/// The tables and facts one compilation resolves names against.
#[derive(Clone, Debug)]
pub struct CompileScope {
    pub kind_table: NameTable,
    pub bridge_table: NameTable,
    pub switch_table: NameTable,
    /// The switches some pressure plate of the map tree names.
    pub plated_switches: Vec<String>,
    /// The item catalog, by config id.
    pub item_catalog: NameTable,
}

impl CompileScope {
    pub open spec fn wf(&self) -> bool {
        &&& self.kind_table.ids@.len() <= 0x1_0000
        &&& self.bridge_table.ids@.len() <= 0x1_0000
        &&& self.switch_table.ids@.len() <= 0x1_0000
        &&& self.item_catalog.ids@.len() <= 0x1_0000
    }
}

/// What an optional switch name resolves to: `Some(None)` without a name,
/// `Some(Some(id))` for a known switch, `None` for an unknown one.
pub open spec fn switch_target(switches: Seq<String>, name: Option<String>) -> Option<Option<SwitchId>> {
    match name {
        None => Some(None),
        Some(n) => match name_index(switches, n@) {
            Some(i) => Some(Some(SwitchId(i as u16))),
            None => None,
        },
    }
}

/// Resolve an optional switch name against the switch table.
pub fn target_switch(scope: &CompileScope, name: &Option<String>) -> (t: Option<Option<SwitchId>>)
    requires
        scope.wf(),
    ensures
        t == switch_target(scope.switch_table.ids@, *name),
{
    match name {
        None => Some(None),
        Some(n) => match scope.switch_table.index_of(n) {
            Some(i) => Some(Some(SwitchId(i))),
            None => None,
        },
    }
}

pub open spec fn spec_level_tag(level: int) -> u8 {
    if level < 255 {
        level as u8
    } else {
        255
    }
}

/// The plate's switch is in the switch table.
pub open spec fn plate_known(switches: Seq<String>, p: crate::schema::PressurePlateDef) -> bool {
    switch_target(switches, Some(p.switch)) is Some
}

/// The runtime record of a plate whose switch is known.
pub open spec fn plate_record(switches: Seq<String>, carrier: CarrierId, p: crate::schema::PressurePlateDef) -> PressurePlateRuntime {
    PressurePlateRuntime {
        carrier,
        level: spec_level_tag(p.level as int),
        col: p.col,
        row: p.row,
        switch: switch_target(switches, Some(p.switch)).unwrap().unwrap(),
    }
}

/// The plates of the map, each on its resolved switch; the first plate
/// naming an unknown switch is an error.
pub fn pressure_plates(m: &MapDef, scope: &CompileScope, carrier: CarrierId) -> (res: Result<
    Vec<PressurePlateRuntime>,
    MapError,
>)
    requires
        scope.wf(),
    ensures
        match res {
            Ok(plates) => {
                &&& plates@.len() == m.pressure_plates@.len()
                &&& forall|i: int| 0 <= i < plates@.len() ==> plate_known(scope.switch_table.ids@, #[trigger] m.pressure_plates@[i])
                &&& forall|i: int|
                    0 <= i < plates@.len() ==> #[trigger] plates@[i] == plate_record(
                        scope.switch_table.ids@,
                        carrier,
                        m.pressure_plates@[i],
                    )
            },
            Err(e) => exists|k: int|
                0 <= k < m.pressure_plates@.len() && !plate_known(scope.switch_table.ids@, #[trigger] m.pressure_plates@[k])
                    && (forall|j: int| 0 <= j < k ==> plate_known(scope.switch_table.ids@, #[trigger] m.pressure_plates@[j]))
                    && e == (MapError::UnknownSwitch {
                    place: SwitchUse::PressurePlate,
                    index: k as usize,
                    name: m.pressure_plates@[k].switch,
                }),
        },
{
    let mut plates: Vec<PressurePlateRuntime> = Vec::new();
    let mut i: usize = 0;
    while i < m.pressure_plates.len()
        invariant
            i <= m.pressure_plates@.len(),
            scope.wf(),
            plates@.len() == i,
            forall|j: int| 0 <= j < i ==> plate_known(scope.switch_table.ids@, #[trigger] m.pressure_plates@[j]),
            forall|j: int|
                0 <= j < i ==> #[trigger] plates@[j] == plate_record(scope.switch_table.ids@, carrier, m.pressure_plates@[j]),
        decreases m.pressure_plates@.len() - i,
    {
        let p = &m.pressure_plates[i];
        let name = Some(p.switch.clone());
        let target = target_switch(scope, &name);
        match target {
            Some(Some(switch)) => {
                let record = PressurePlateRuntime { carrier, level: level_tag(p.level as usize), col: p.col, row: p.row, switch };
                proof {
                    assert(record == plate_record(scope.switch_table.ids@, carrier, m.pressure_plates@[i as int]));
                }
                plates.push(record);
            },
            _ => {
                return Err(MapError::UnknownSwitch { place: SwitchUse::PressurePlate, index: i, name: p.switch.clone() });
            },
        }
        i = i + 1;
    }
    Ok(plates)
}

/// The barrier's kind and switch are in their tables.
pub open spec fn barrier_known(scope: CompileScope, b: BarrierDef) -> bool {
    name_index(scope.kind_table.ids@, b.kind@) is Some && switch_target(scope.switch_table.ids@, b.switch) is Some
}

/// The resolved record of a known barrier.
pub open spec fn barrier_record(scope: CompileScope, b: BarrierDef) -> BarrierEdge {
    BarrierEdge {
        switch: switch_target(scope.switch_table.ids@, b.switch).unwrap(),
        switch_inverted: b.switch_inverted,
        edge: barrier_edge(b),
        kind: BarrierKindId(name_index(scope.kind_table.ids@, b.kind@).unwrap() as u16),
    }
}

/// The error for the unknown barrier `k` of level `l`: its kind if that is
/// unknown, else its switch.
pub open spec fn barrier_error(scope: CompileScope, l: int, k: int, b: BarrierDef) -> MapError {
    if name_index(scope.kind_table.ids@, b.kind@) is None {
        MapError::UnknownBarrierKind { level: l as usize, index: k as usize, kind: b.kind }
    } else {
        MapError::UnknownSwitch {
            place: SwitchUse::Barrier { level: l as usize },
            index: k as usize,
            name: b.switch.unwrap(),
        }
    }
}

/// Every barrier of the levels before `l`, and the first `k` of level `l`,
/// are known.
pub open spec fn barriers_known_before(m: MapDef, scope: CompileScope, l: int, k: int) -> bool {
    &&& forall|a: int, b: int|
        0 <= a < l && 0 <= b < m.levels@[a].barriers@.len() ==> barrier_known(scope, #[trigger] m.levels@[a].barriers@[b])
    &&& forall|b: int| 0 <= b < k ==> barrier_known(scope, #[trigger] m.levels@[l].barriers@[b])
}

/// `lv` holds every barrier of the map resolved, level by level.
pub open spec fn barriers_resolved(m: MapDef, scope: CompileScope, lv: Seq<Vec<BarrierEdge>>) -> bool {
    &&& lv.len() == m.levels@.len()
    &&& forall|l: int|
        0 <= l < lv.len() ==> (#[trigger] lv[l])@.len() == m.levels@[l].barriers@.len() && forall|k: int|
            0 <= k < lv[l]@.len() ==> barrier_known(scope, m.levels@[l].barriers@[k]) && #[trigger] lv[l]@[k]
                == barrier_record(scope, m.levels@[l].barriers@[k])
}

/// The error the first unknown barrier of the map gives.
pub open spec fn first_barrier_error(m: MapDef, scope: CompileScope, e: MapError) -> bool {
    exists|l: int, k: int|
        0 <= l < m.levels@.len() && 0 <= k < m.levels@[l].barriers@.len() && barriers_known_before(m, scope, l, k)
            && !barrier_known(scope, #[trigger] m.levels@[l].barriers@[k]) && e == barrier_error(
            scope,
            l,
            k,
            m.levels@[l].barriers@[k],
        )
}

/// Resolve the kind and switch of every barrier of the map.
pub fn resolve_barriers(m: &MapDef, scope: &CompileScope) -> (res: Result<Vec<Vec<BarrierEdge>>, MapError>)
    requires
        scope.wf(),
    ensures
        match res {
            Ok(lv) => barriers_resolved(*m, *scope, lv@),
            Err(e) => first_barrier_error(*m, *scope, e),
        },
{
    let mut lv: Vec<Vec<BarrierEdge>> = Vec::new();
    let mut l: usize = 0;
    while l < m.levels.len()
        invariant
            l <= m.levels@.len(),
            scope.wf(),
            lv@.len() == l,
            barriers_known_before(*m, *scope, l as int, 0),
            forall|a: int|
                0 <= a < l ==> (#[trigger] lv@[a])@.len() == m.levels@[a].barriers@.len() && forall|k: int|
                    0 <= k < lv@[a]@.len() ==> barrier_known(*scope, m.levels@[a].barriers@[k]) && #[trigger] lv@[a]@[k]
                        == barrier_record(*scope, m.levels@[a].barriers@[k]),
        decreases m.levels@.len() - l,
    {
        let level = &m.levels[l];
        let mut edges: Vec<BarrierEdge> = Vec::new();
        let mut k: usize = 0;
        while k < level.barriers.len()
            invariant
                k <= level.barriers@.len(),
                l < m.levels@.len(),
                *level == m.levels@[l as int],
                scope.wf(),
                barriers_known_before(*m, *scope, l as int, k as int),
                edges@.len() == k,
                forall|j: int| 0 <= j < k ==> #[trigger] edges@[j] == barrier_record(*scope, level.barriers@[j]),
            decreases level.barriers@.len() - k,
        {
            let b = &level.barriers[k];
            let kind = scope.kind_table.index_of(&b.kind);
            let switch = target_switch(scope, &b.switch);
            match (kind, switch) {
                (Some(kind), Some(switch)) => {
                    let record = BarrierEdge { switch, switch_inverted: b.switch_inverted, edge: [b.c0, b.r0, b.c1, b.r1], kind: BarrierKindId(kind) };
                    proof {
                        assert(record == barrier_record(*scope, level.barriers@[k as int]));
                        assert(barrier_known(*scope, m.levels@[l as int].barriers@[k as int]));
                        assert forall|c: int| 0 <= c < k + 1 implies barrier_known(*scope, #[trigger] m.levels@[l as int].barriers@[c]) by {
                            if c < k {
                            }
                        }
                    }
                    edges.push(record);
                },
                (None, _) => {
                    proof {
                        assert(first_barrier_error(*m, *scope, barrier_error(*scope, l as int, k as int, level.barriers@[k as int])));
                    }
                    return Err(MapError::UnknownBarrierKind { level: l, index: k, kind: b.kind.clone() });
                },
                (Some(_), None) => {
                    let name = match &b.switch {
                        Some(n) => n.clone(),
                        None => String::new(),
                    };
                    proof {
                        assert(b.switch is Some);
                        assert(first_barrier_error(*m, *scope, barrier_error(*scope, l as int, k as int, level.barriers@[k as int])));
                    }
                    return Err(MapError::UnknownSwitch { place: SwitchUse::Barrier { level: l }, index: k, name });
                },
            }
            k = k + 1;
        }
        proof {
            assert forall|a: int, c: int|
                0 <= a < l + 1 && 0 <= c < m.levels@[a].barriers@.len() implies barrier_known(*scope, #[trigger] m.levels@[a].barriers@[c]) by {
                if a == l {
                }
            }
        }
        lv.push(edges);
        l = l + 1;
    }
    Ok(lv)
}

/// `runs` are the stacks of `lv`: one per barrier that starts a stack, in
/// order, each spanning every level that continues it.
pub open spec fn stacked(lv: Seq<Vec<BarrierEdge>>, ms: Seq<Vec<Vec<bool>>>, runs: Seq<BarrierRun>) -> bool {
    &&& runs.len() == starts(lv, ms, lv.len() as int).len()
    &&& forall|i: int|
        0 <= i < runs.len() ==> {
            let s = starts(lv, ms, lv.len() as int)[i];
            &&& run_starts_with(#[trigger] runs[i], s.0, s.1)
            &&& full_span(lv, ms, runs[i].level as int, run_key(runs[i]), runs[i].levels as int)
        }
}

/// Two valid edges on the same grid edge are the same edge.
proof fn lemma_grid_edge_key(a: [i32; 4], b: [i32; 4], grid_cols: int, grid_rows: int)
    requires
        edge_valid(a, grid_cols, grid_rows),
        edge_valid(b, grid_cols, grid_rows),
        crate::barriers::spec_grid_edge(a) == crate::barriers::spec_grid_edge(b),
    ensures
        crate::validation::norm_key(a) == crate::validation::norm_key(b),
{
    assert(edge_slot(a) == edge_slot(b));
    crate::validation::lemma_slot_matches_normalized(a, b, grid_cols, grid_rows);
}

proof fn lemma_keys_unique(m: MapDef, scope: CompileScope, lv: Seq<Vec<BarrierEdge>>)
    requires
        map_valid(m),
        barriers_resolved(m, scope, lv),
    ensures
        keys_unique(lv),
{
    assert forall|l: int, i: int, j: int|
        0 <= l < lv.len() && 0 <= i < j < lv[l]@.len() implies crate::barriers::key(#[trigger] lv[l]@[i])
        != crate::barriers::key(#[trigger] lv[l]@[j]) by {
        let level = m.levels@[l];
        assert(level_ok(level, m.grid_cols as int, m.grid_rows as int));
        let edges = crate::validation::level_barriers(level);
        assert(edges[i] == barrier_edge(level.barriers@[i]));
        assert(edges[j] == barrier_edge(level.barriers@[j]));
        assert(lv[l]@[i] == barrier_record(scope, level.barriers@[i]));
        assert(lv[l]@[j] == barrier_record(scope, level.barriers@[j]));
        assert(crate::validation::norm_key(edges[i]) != crate::validation::norm_key(edges[j]));
        if crate::barriers::key(lv[l]@[i]) == crate::barriers::key(lv[l]@[j]) {
            lemma_grid_edge_key(edges[i], edges[j], m.grid_cols as int, m.grid_rows as int);
        }
    }
}

/// The map's barrier runs: every barrier resolved, stacked up the storeys
/// no slab splits, and collinear neighbours merged.
pub fn compile_barriers(m: &MapDef, scope: &CompileScope, slabs: &Vec<Mask>) -> (res: Result<Vec<BarrierRun>, MapError>)
    requires
        scope.wf(),
        map_valid(*m),
        m.levels@.len() <= 256,
        slabs@.len() == m.levels@.len(),
    ensures
        match res {
            Ok(v) => barriers_ok(*m, *scope) && exists|lv: Seq<Vec<BarrierEdge>>, runs: Seq<BarrierRun>|
                barriers_resolved(*m, *scope, lv) && stacked(lv, slabs@, runs) && merged_layout(runs, v@),
            Err(e) => first_barrier_error(*m, *scope, e),
        },
{
    let lv = match resolve_barriers(m, scope) {
        Ok(lv) => lv,
        Err(e) => {
            return Err(e);
        },
    };
    proof {
        lemma_keys_unique(*m, *scope, lv@);
        assert forall|l: int, k: int| 0 <= l < m.levels@.len() && 0 <= k < m.levels@[l].barriers@.len() implies barrier_known(
            *scope,
            #[trigger] m.levels@[l].barriers@[k],
        ) by {
            assert(lv@[l]@.len() == m.levels@[l].barriers@.len());
            assert(lv@[l]@[k] == barrier_record(*scope, m.levels@[l].barriers@[k]));
        }
    }
    let runs = stack_barriers(&lv, slabs);
    let ghost stacked_runs = runs@;
    let merged = merge_barriers(runs);
    proof {
        assert(stacked(lv@, slabs@, stacked_runs));
    }
    Ok(merged)
}

/// One merged light-bridge rectangle of a level, with the switch that
/// powers it.
#[derive(Clone, Copy, Debug)]
pub struct LightBridgeRun {
    pub level: u8,
    pub switch: Option<SwitchId>,
    pub switch_inverted: bool,
    pub rect: BridgeRect,
}

/// The bridge cell's kind and switch are in their tables.
pub open spec fn bridge_known(scope: CompileScope, d: LightBridgeDef) -> bool {
    name_index(scope.bridge_table.ids@, d.kind@) is Some && switch_target(scope.switch_table.ids@, d.switch) is Some
}

/// The kind, switch and inversion of a known bridge cell: cells merge only
/// within one such group.
pub open spec fn bridge_group(scope: CompileScope, d: LightBridgeDef) -> (BridgeKindId, Option<SwitchId>, bool) {
    (
        BridgeKindId(name_index(scope.bridge_table.ids@, d.kind@).unwrap() as u16),
        switch_target(scope.switch_table.ids@, d.switch).unwrap(),
        d.switch_inverted,
    )
}

pub open spec fn run_group(b: LightBridgeRun) -> (BridgeKindId, Option<SwitchId>, bool) {
    (b.rect.kind, b.switch, b.switch_inverted)
}

/// Groups order by kind, then switch (none first), then inversion.
pub open spec fn group_rank3(g: (BridgeKindId, Option<SwitchId>, bool)) -> int {
    g.0.0 * 0x4_0000 + crate::barrier_merge::switch_rank(g.1) * 2 + if g.2 {
        1int
    } else {
        0int
    }
}

proof fn lemma_group_rank3(a: (BridgeKindId, Option<SwitchId>, bool), b: (BridgeKindId, Option<SwitchId>, bool))
    ensures
        group_rank3(a) == group_rank3(b) <==> a == b,
{
    let sa = crate::barrier_merge::switch_rank(a.1);
    let sb = crate::barrier_merge::switch_rank(b.1);
    assert(0 <= sa <= 0x1_0000 && 0 <= sb <= 0x1_0000);
    if group_rank3(a) == group_rank3(b) {
        assert(a.0.0 == b.0.0);
        assert(sa == sb);
        assert(a.2 == b.2);
        match a.1 {
            None => {},
            Some(x) => match b.1 {
                None => {},
                Some(y) => {
                    assert(x.0 == y.0);
                },
            },
        }
    }
}

fn group_rank_exec(kind: BridgeKindId, switch: Option<SwitchId>, inverted: bool) -> (r: u64)
    ensures
        r as int == group_rank3((kind, switch, inverted)),
{
    let sw: u64 = match switch {
        None => 0,
        Some(id) => id.0 as u64 + 1,
    };
    kind.0 as u64 * 0x4_0000 + sw * 2 + if inverted {
        1
    } else {
        0
    }
}

/// Add `r` to an ascending rank list unless it is there already.
fn insert_rank(ranks: &mut Vec<u64>, r: u64)
    requires
        forall|a: int, b: int| 0 <= a < b < old(ranks)@.len() ==> old(ranks)@[a] < old(ranks)@[b],
    ensures
        forall|a: int, b: int| 0 <= a < b < final(ranks)@.len() ==> final(ranks)@[a] < final(ranks)@[b],
        forall|k: u64| #[trigger] final(ranks)@.contains(k) <==> (old(ranks)@.contains(k) || k == r),
{
    let mut i: usize = 0;
    while i < ranks.len()
        invariant
            i <= ranks@.len(),
            ranks@ == old(ranks)@,
            forall|a: int, b: int| 0 <= a < b < ranks@.len() ==> ranks@[a] < ranks@[b],
            forall|k: int| 0 <= k < i ==> #[trigger] ranks@[k] < r,
        ensures
            i <= ranks@.len(),
            ranks@ == old(ranks)@,
            forall|k: int| 0 <= k < i ==> #[trigger] ranks@[k] < r,
            i < ranks@.len() ==> ranks@[i as int] > r,
        decreases ranks@.len() - i,
    {
        if ranks[i] == r {
            return;
        }
        if ranks[i] > r {
            break;
        }
        i = i + 1;
    }
    let ghost prev = ranks@;
    ranks.insert(i, r);
    proof {
        assert forall|a: int, b: int| 0 <= a < b < ranks@.len() implies ranks@[a] < ranks@[b] by {
            if b < i {
            } else if b == i {
            } else if a < i {
                assert(ranks@[b] == prev[b - 1]);
                if b - 1 > i {
                    assert(prev[i as int] < prev[b - 1]);
                }
            } else if a == i {
                assert(ranks@[b] == prev[b - 1]);
                if b - 1 > i {
                    assert(prev[i as int] < prev[b - 1]);
                }
            } else {
                assert(ranks@[a] == prev[a - 1]);
                assert(ranks@[b] == prev[b - 1]);
            }
        }
        assert forall|k: u64| #[trigger] ranks@.contains(k) <==> (prev.contains(k) || k == r) by {
            if ranks@.contains(k) {
                let x = choose|x: int| 0 <= x < ranks@.len() && ranks@[x] == k;
                if x < i {
                    assert(prev[x] == k);
                } else if x > i {
                    assert(prev[x - 1] == k);
                }
            }
            if prev.contains(k) {
                let x = choose|x: int| 0 <= x < prev.len() && prev[x] == k;
                if x < i {
                    assert(ranks@[x] == k);
                } else {
                    assert(ranks@[x + 1] == k);
                }
            }
            if k == r {
                assert(ranks@[i as int] == k);
            }
        }
    }
}

/// A resolved bridge cell: column, row and group.
pub type BridgeCell = (i32, i32, (BridgeKindId, Option<SwitchId>, bool));

/// The bridge cells of a level lie where rectangles can hold them.
pub open spec fn bridge_cells_fit(defs: Seq<LightBridgeDef>) -> bool {
    forall|k: int| 0 <= k < defs.len() ==> (#[trigger] defs[k]).col < i32::MAX && defs[k].row < i32::MAX
}

/// Some cell of `cells` at `(row, col)` is of group `g`.
pub open spec fn group_has(cells: Seq<BridgeCell>, g: (BridgeKindId, Option<SwitchId>, bool), row: int, col: int) -> bool {
    exists|k: int| 0 <= k < cells.len() && (#[trigger] cells[k]).0 == col && cells[k].1 == row && cells[k].2 == g
}

/// Some rectangle of `out` of the cell's group holds it.
pub open spec fn covered_in(out: Seq<LightBridgeRun>, c: BridgeCell) -> bool {
    exists|b: int| 0 <= b < out.len() && run_group(#[trigger] out[b]) == c.2 && out[b].rect.holds(c.1 as int, c.0 as int)
}

/// Cell `(row, col)` of group `g` that none of the first `k` rectangles of
/// that group holds.
pub open spec fn group_left_after(
    cells: Seq<BridgeCell>,
    out: Seq<LightBridgeRun>,
    g: (BridgeKindId, Option<SwitchId>, bool),
    k: int,
    row: int,
    col: int,
) -> bool {
    &&& group_has(cells, g, row, col)
    &&& forall|t: int| 0 <= t < k && run_group(out[t]) == g ==> !#[trigger] out[t].rect.holds(row, col)
}

/// Every cell of `s` is left of the `k`-th rectangle's group after the
/// earlier rectangles of that group.
pub open spec fn fits_group_left(cells: Seq<BridgeCell>, out: Seq<LightBridgeRun>, k: int, s: BridgeRect) -> bool {
    forall|row: int, col: int| #[trigger] s.holds(row, col) ==> group_left_after(cells, out, run_group(out[k]), k, row, col)
}

/// Each rectangle is the one `preferred` picks among all that fit in what
/// the earlier rectangles of its group left.
pub open spec fn taken_per_group(cells: Seq<BridgeCell>, out: Seq<LightBridgeRun>) -> bool {
    forall|k: int, s: BridgeRect|
        0 <= k < out.len() && s.nonempty() && #[trigger] fits_group_left(cells, out, k, s) ==> preferred(out[k].rect, s)
}

/// `out` is the bridge cells `cells` of one level merged per group: every
/// rectangle made of cells of its group, every cell inside a rectangle of
/// its group, rectangles of one group apart, and groups in ascending order.
pub open spec fn bridges_merged(cells: Seq<BridgeCell>, tag: u8, out: Seq<LightBridgeRun>) -> bool {
    &&& forall|b: int| 0 <= b < out.len() ==> (#[trigger] out[b]).level == tag && out[b].rect.nonempty()
    &&& forall|b: int, row: int, col: int|
        0 <= b < out.len() && #[trigger] out[b].rect.holds(row, col) ==> group_has(cells, run_group(out[b]), row, col)
    &&& forall|k: int| 0 <= k < cells.len() ==> covered_in(out, #[trigger] cells[k])
    &&& forall|a: int, b: int, row: int, col: int|
        0 <= a < b < out.len() && run_group(out[a]) == run_group(out[b]) && #[trigger] out[a].rect.holds(row, col)
            ==> !#[trigger] out[b].rect.holds(row, col)
    &&& forall|a: int, b: int|
        0 <= a < b < out.len() ==> group_rank3(run_group(#[trigger] out[a])) <= group_rank3(run_group(#[trigger] out[b]))
    &&& taken_per_group(cells, out)
}

/// `out` holds the merged rectangles of every group ranked below `bound`.
#[verifier::opaque]
pub open spec fn merged_upto(cells: Seq<BridgeCell>, tag: u8, out: Seq<LightBridgeRun>, bound: int) -> bool {
    &&& forall|b: int| 0 <= b < out.len() ==> (#[trigger] out[b]).level == tag && out[b].rect.nonempty()
    &&& forall|b: int, row: int, col: int|
        0 <= b < out.len() && #[trigger] out[b].rect.holds(row, col) ==> group_has(cells, run_group(out[b]), row, col)
    &&& forall|k: int| 0 <= k < cells.len() && group_rank3((#[trigger] cells[k]).2) < bound ==> covered_in(out, cells[k])
    &&& forall|a: int, b: int, row: int, col: int|
        0 <= a < b < out.len() && run_group(out[a]) == run_group(out[b]) && #[trigger] out[a].rect.holds(row, col)
            ==> !#[trigger] out[b].rect.holds(row, col)
    &&& forall|a: int, b: int|
        0 <= a < b < out.len() ==> group_rank3(run_group(#[trigger] out[a])) <= group_rank3(run_group(#[trigger] out[b]))
    &&& forall|b: int| 0 <= b < out.len() ==> group_rank3(run_group(#[trigger] out[b])) < bound
    &&& taken_per_group(cells, out)
}

/// The ascending list of the group ranks of `cells`.
fn group_ranks(cells: &Vec<BridgeCell>) -> (ranks: Vec<u64>)
    ensures
        forall|a: int, b: int| 0 <= a < b < ranks@.len() ==> ranks@[a] < ranks@[b],
        forall|r: u64| #[trigger] ranks@.contains(r) <==> exists|x: int| 0 <= x < cells@.len() && group_rank3((#[trigger] cells@[x]).2) == r,
{
    let mut ranks: Vec<u64> = Vec::new();
    let mut i: usize = 0;
    while i < cells.len()
        invariant
            i <= cells@.len(),
            forall|a: int, b: int| 0 <= a < b < ranks@.len() ==> ranks@[a] < ranks@[b],
            forall|r: u64| #[trigger] ranks@.contains(r) <==> exists|x: int| 0 <= x < i && group_rank3((#[trigger] cells@[x]).2) == r,
        decreases cells@.len() - i,
    {
        let g = cells[i].2;
        let r = group_rank_exec(g.0, g.1, g.2);
        insert_rank(&mut ranks, r);
        proof {
            assert forall|q: u64| #[trigger] ranks@.contains(q) <==> exists|x: int| 0 <= x < i + 1 && group_rank3((#[trigger] cells@[x]).2) == q by {
                if q == r {
                    assert(group_rank3(cells@[i as int].2) == q);
                }
            }
        }
        i = i + 1;
    }
    ranks
}

/// The cells of group `g` as `(col, row, kind)`.
pub open spec fn members_of(cells: Seq<BridgeCell>, g: (BridgeKindId, Option<SwitchId>, bool), members: Seq<(i32, i32, BridgeKindId)>) -> bool {
    &&& forall|x: int| 0 <= x < members.len() ==> (#[trigger] members[x]).2 == g.0 && group_has(cells, g, members[x].1 as int, members[x].0 as int)
    &&& forall|y: int|
        0 <= y < cells.len() && (#[trigger] cells[y]).2 == g ==> exists|x: int|
            0 <= x < members.len() && (#[trigger] members[x]).0 == cells[y].0 && members[x].1 == cells[y].1
}

/// The cells whose group has rank `r`, and that group.
fn group_members(cells: &Vec<BridgeCell>, r: u64) -> (res: (Vec<(i32, i32, BridgeKindId)>, (BridgeKindId, Option<SwitchId>, bool)))
    requires
        exists|x: int| 0 <= x < cells@.len() && group_rank3((#[trigger] cells@[x]).2) == r,
    ensures
        group_rank3(res.1) == r,
        members_of(cells@, res.1, res.0@),
        forall|x: int| 0 <= x < res.0@.len() ==> exists|y: int| 0 <= y < cells@.len() && (#[trigger] cells@[y]).0 == (#[trigger] res.0@[x]).0 && cells@[y].1 == res.0@[x].1,
{
    let ghost w = choose|x: int| 0 <= x < cells@.len() && group_rank3((#[trigger] cells@[x]).2) == r;
    let ghost g = cells@[w].2;
    let mut members: Vec<(i32, i32, BridgeKindId)> = Vec::new();
    let mut found: Option<(BridgeKindId, Option<SwitchId>, bool)> = None;
    let mut k: usize = 0;
    while k < cells.len()
        invariant
            k <= cells@.len(),
            0 <= w < cells@.len(),
            g == cells@[w].2,
            group_rank3(g) == r,
            found matches Some(f) ==> f == g,
            w < k ==> found is Some,
            forall|x: int| 0 <= x < members@.len() ==> (#[trigger] members@[x]).2 == g.0 && group_has(cells@, g, members@[x].1 as int, members@[x].0 as int),
            forall|x: int| 0 <= x < members@.len() ==> exists|y: int| 0 <= y < cells@.len() && (#[trigger] cells@[y]).0 == (#[trigger] members@[x]).0 && cells@[y].1 == members@[x].1,
            forall|y: int|
                0 <= y < k && (#[trigger] cells@[y]).2 == g ==> exists|x: int|
                    0 <= x < members@.len() && (#[trigger] members@[x]).0 == cells@[y].0 && members@[x].1 == cells@[y].1,
        decreases cells@.len() - k,
    {
        let c = cells[k];
        let cr = group_rank_exec(c.2.0, c.2.1, c.2.2);
        if cr == r {
            proof {
                lemma_group_rank3(c.2, g);
            }
            let ghost before = members@;
            members.push((c.0, c.1, c.2.0));
            found = Some(c.2);
            proof {
                assert(cells@[k as int] == c);
                assert forall|x: int| 0 <= x < members@.len() implies (#[trigger] members@[x]).2 == g.0 && group_has(cells@, g, members@[x].1 as int, members@[x].0 as int) by {
                    if x < before.len() {
                        assert(members@[x] == before[x]);
                    }
                }
                assert forall|x: int| 0 <= x < members@.len() implies exists|y: int| 0 <= y < cells@.len() && (#[trigger] cells@[y]).0 == (#[trigger] members@[x]).0 && cells@[y].1 == members@[x].1 by {
                    if x < before.len() {
                        assert(members@[x] == before[x]);
                    }
                }
                assert forall|y: int| 0 <= y < k + 1 && (#[trigger] cells@[y]).2 == g implies exists|x: int|
                    0 <= x < members@.len() && (#[trigger] members@[x]).0 == cells@[y].0 && members@[x].1 == cells@[y].1 by {
                    if y == k {
                        assert(members@[before.len() as int] == (c.0, c.1, c.2.0));
                    } else {
                        let x = choose|x: int| 0 <= x < before.len() && (#[trigger] before[x]).0 == cells@[y].0 && before[x].1 == cells@[y].1;
                        assert(members@[x] == before[x]);
                    }
                }
            }
        } else {
            proof {
                if cells@[k as int].2 == g {
                    assert(group_rank3(cells@[k as int].2) == r);
                }
            }
        }
        k = k + 1;
    }
    let g_exec = match found {
        Some(f) => f,
        None => {
            proof {
                assert(false);
            }
            (BridgeKindId(0), None, false)
        },
    };
    (members, g_exec)
}

proof fn lemma_merged_start(cells: Seq<BridgeCell>, tag: u8, ranks: Seq<u64>)
    requires
        forall|a: int, b: int| 0 <= a < b < ranks.len() ==> ranks[a] < ranks[b],
        forall|r: u64| #[trigger] ranks.contains(r) <==> exists|x: int| 0 <= x < cells.len() && group_rank3((#[trigger] cells[x]).2) == r,
    ensures
        merged_upto(cells, tag, Seq::empty(), if 0 < ranks.len() { ranks[0] as int } else { 0x1_0000_0000_0000int }),
{
    reveal(merged_upto);
    assert forall|k: int| 0 <= k < cells.len() implies group_rank3((#[trigger] cells[k]).2) >= (if 0 < ranks.len() { ranks[0] as int } else { 0x1_0000_0000_0000int }) by {
        let rk = group_rank3(cells[k].2);
        assert(0 <= rk < 0x1_0000_0000_0000int) by {
            assert(0 <= crate::barrier_merge::switch_rank(cells[k].2.1) <= 0x1_0000);
        }
        assert(ranks.contains(rk as u64));
        let p = choose|p: int| 0 <= p < ranks.len() && ranks[p] == rk as u64;
        if p > 0 {
            assert(ranks[0] < ranks[p]);
        }
    }
}

proof fn lemma_merged_step(
    cells: Seq<BridgeCell>,
    tag: u8,
    out: Seq<LightBridgeRun>,
    r: u64,
    next: int,
    g: (BridgeKindId, Option<SwitchId>, bool),
    members: Seq<(i32, i32, BridgeKindId)>,
    rects: Seq<BridgeRect>,
    block: Seq<LightBridgeRun>,
)
    requires
        merged_upto(cells, tag, out, r as int),
        r < next,
        forall|k: int| 0 <= k < cells.len() ==> !(r < group_rank3((#[trigger] cells[k]).2) < next),
        group_rank3(g) == r,
        members_of(cells, g, members),
        forall|k: int| 0 <= k < rects.len() ==> (#[trigger] rects[k]).nonempty(),
        forall|k: int, row: int, col: int|
            0 <= k < rects.len() && #[trigger] rects[k].holds(row, col) ==> input_has(members, rects[k].kind, row, col),
        forall|a: int, b: int, row: int, col: int|
            0 <= a < b < rects.len() && rects[a].kind == rects[b].kind && #[trigger] rects[a].holds(row, col)
                ==> !#[trigger] rects[b].holds(row, col),
        forall|i: int| 0 <= i < members.len() ==> covered_by(rects, #[trigger] members[i]),
        forall|k: int, s: BridgeRect|
            0 <= k < rects.len() && s.nonempty() && #[trigger] fits_kind_left(members, rects, k, s) ==> preferred(rects[k], s),
        block.len() == rects.len(),
        forall|b: int|
            0 <= b < block.len() ==> #[trigger] block[b] == (LightBridgeRun { level: tag, switch: g.1, switch_inverted: g.2, rect: rects[b] }),
    ensures
        merged_upto(cells, tag, out + block, next),
{
    reveal(merged_upto);
    let all = out + block;
    let n0 = out.len();
    assert forall|b: int| 0 <= b < rects.len() implies (#[trigger] rects[b]).kind == g.0 by {
        let rc = rects[b];
        assert(rc.holds(rc.r0 as int, rc.c0 as int));
        assert(input_has(members, rc.kind, rc.r0 as int, rc.c0 as int));
        let x = choose|x: int| 0 <= x < members.len() && (#[trigger] members[x]).0 == rc.c0 && members[x].1 == rc.r0 && members[x].2 == rc.kind;
    }
    assert forall|b: int| 0 <= b < all.len() implies (#[trigger] all[b]).level == tag && all[b].rect.nonempty() by {
        if b >= n0 {
            assert(all[b] == block[b - n0]);
        } else {
            assert(all[b] == out[b]);
        }
    }
    assert forall|b: int, row: int, col: int| 0 <= b < all.len() && #[trigger] all[b].rect.holds(row, col) implies group_has(cells, run_group(all[b]), row, col) by {
        if b >= n0 {
            let q = b - n0;
            assert(all[b] == block[q]);
            assert(rects[q].holds(row, col));
            assert(input_has(members, rects[q].kind, row, col));
            let x = choose|x: int| 0 <= x < members.len() && (#[trigger] members[x]).0 == col && members[x].1 == row && members[x].2 == rects[q].kind;
            assert(group_has(cells, g, members[x].1 as int, members[x].0 as int));
            assert(run_group(all[b]) == g);
        } else {
            assert(all[b] == out[b]);
        }
    }
    assert forall|k: int| 0 <= k < cells.len() && group_rank3((#[trigger] cells[k]).2) < next implies covered_in(all, cells[k]) by {
        if group_rank3(cells[k].2) < r {
            assert(covered_in(out, cells[k]));
            let b = choose|b: int| 0 <= b < out.len() && run_group(#[trigger] out[b]) == cells[k].2 && out[b].rect.holds(cells[k].1 as int, cells[k].0 as int);
            assert(all[b] == out[b]);
        } else {
            assert(group_rank3(cells[k].2) == r);
            lemma_group_rank3(cells[k].2, g);
            let x = choose|x: int| 0 <= x < members.len() && (#[trigger] members[x]).0 == cells[k].0 && members[x].1 == cells[k].1;
            assert(covered_by(rects, members[x]));
            let q = choose|q: int| 0 <= q < rects.len() && (#[trigger] rects[q]).kind == members[x].2 && rects[q].holds(members[x].1 as int, members[x].0 as int);
            assert(all[n0 + q] == block[q]);
            assert(run_group(all[n0 + q]) == cells[k].2);
        }
    }
    assert forall|a: int, b: int, row: int, col: int|
        0 <= a < b < all.len() && run_group(all[a]) == run_group(all[b]) && #[trigger] all[a].rect.holds(row, col)
            implies !#[trigger] all[b].rect.holds(row, col) by {
        if b < n0 {
            assert(all[a] == out[a] && all[b] == out[b]);
        } else if a < n0 {
            assert(all[a] == out[a]);
            assert(all[b] == block[b - n0]);
            assert(group_rank3(run_group(out[a])) < r);
        } else {
            assert(all[a] == block[a - n0]);
            assert(all[b] == block[b - n0]);
        }
    }
    assert forall|a: int, b: int| 0 <= a < b < all.len() implies group_rank3(run_group(#[trigger] all[a])) <= group_rank3(run_group(#[trigger] all[b])) by {
        if b < n0 {
            assert(all[a] == out[a] && all[b] == out[b]);
        } else if a < n0 {
            assert(all[a] == out[a]);
            assert(all[b] == block[b - n0]);
        } else {
            assert(all[a] == block[a - n0]);
            assert(all[b] == block[b - n0]);
        }
    }
    assert forall|b: int| 0 <= b < all.len() implies group_rank3(run_group(#[trigger] all[b])) < next by {
        if b < n0 {
            assert(all[b] == out[b]);
        } else {
            assert(all[b] == block[b - n0]);
        }
    }
    assert forall|k: int, q: BridgeRect|
        0 <= k < all.len() && q.nonempty() && #[trigger] fits_group_left(cells, all, k, q) implies preferred(all[k].rect, q) by {
        if k < n0 {
            assert(all[k] == out[k]);
            assert forall|row: int, col: int| #[trigger] q.holds(row, col) implies group_left_after(
                cells,
                out,
                run_group(out[k]),
                k,
                row,
                col,
            ) by {
                assert(group_left_after(cells, all, run_group(all[k]), k, row, col));
                assert forall|t: int| 0 <= t < k && run_group(out[t]) == run_group(out[k]) implies !#[trigger] out[t].rect.holds(
                    row,
                    col,
                ) by {
                    assert(all[t] == out[t]);
                }
            }
            assert(fits_group_left(cells, out, k, q));
        } else {
            let p = k - n0;
            assert(all[k] == block[p]);
            assert(run_group(all[k]) == g);
            assert forall|row: int, col: int| #[trigger] q.holds(row, col) implies kind_left_after(
                members,
                rects,
                rects[p].kind,
                p,
                row,
                col,
            ) by {
                assert(group_left_after(cells, all, g, k, row, col));
                let y = choose|y: int|
                    0 <= y < cells.len() && (#[trigger] cells[y]).0 == col && cells[y].1 == row && cells[y].2 == g;
                let x = choose|x: int| 0 <= x < members.len() && (#[trigger] members[x]).0 == cells[y].0 && members[x].1 == cells[y].1;
                assert(members[x].2 == g.0);
                assert(input_has(members, rects[p].kind, row, col));
                assert forall|t: int| 0 <= t < p && rects[t].kind == rects[p].kind implies !#[trigger] rects[t].holds(row, col) by {
                    assert(all[n0 + t] == block[t]);
                    assert(run_group(all[n0 + t]) == g);
                }
            }
            assert(fits_kind_left(members, rects, p, q));
        }
    }
}

/// Merge the resolved bridge cells of one level, group by group in
/// ascending group order.
pub fn merge_level_bridges(cells: &Vec<BridgeCell>, tag: u8) -> (out: Vec<LightBridgeRun>)
    requires
        forall|k: int| 0 <= k < cells@.len() ==> (#[trigger] cells@[k]).0 < i32::MAX && cells@[k].1 < i32::MAX,
    ensures
        bridges_merged(cells@, tag, out@),
{
    let ranks = group_ranks(cells);
    let mut out: Vec<LightBridgeRun> = Vec::new();
    proof {
        lemma_merged_start(cells@, tag, ranks@);
    }
    let mut gi: usize = 0;
    while gi < ranks.len()
        invariant
            gi <= ranks@.len(),
            forall|k: int| 0 <= k < cells@.len() ==> (#[trigger] cells@[k]).0 < i32::MAX && cells@[k].1 < i32::MAX,
            forall|a: int, b: int| 0 <= a < b < ranks@.len() ==> ranks@[a] < ranks@[b],
            forall|r: u64| #[trigger] ranks@.contains(r) <==> exists|x: int| 0 <= x < cells@.len() && group_rank3((#[trigger] cells@[x]).2) == r,
            merged_upto(cells@, tag, out@, if gi < ranks@.len() { ranks@[gi as int] as int } else { 0x1_0000_0000_0000int }),
        decreases ranks@.len() - gi,
    {
        let r = ranks[gi];
        proof {
            assert(ranks@.contains(r));
        }
        let (members, g) = group_members(cells, r);
        proof {
            assert forall|i: int| 0 <= i < members@.len() implies (#[trigger] members@[i]).0 < i32::MAX && members@[i].1 < i32::MAX by {
                let y = choose|y: int| 0 <= y < cells@.len() && (#[trigger] cells@[y]).0 == members@[i].0 && cells@[y].1 == members@[i].1;
            }
        }
        let rects = merge_light_bridges(members.as_slice());
        let ghost out_before = out@;
        let ghost block = Seq::new(rects@.len(), |b: int| LightBridgeRun { level: tag, switch: g.1, switch_inverted: g.2, rect: rects@[b] });
        let mut j: usize = 0;
        while j < rects.len()
            invariant
                j <= rects@.len(),
                block.len() == rects@.len(),
                forall|b: int| 0 <= b < rects@.len() ==> #[trigger] block[b] == (LightBridgeRun { level: tag, switch: g.1, switch_inverted: g.2, rect: rects@[b] }),
                out@ == out_before + block.take(j as int),
            decreases rects@.len() - j,
        {
            out.push(LightBridgeRun { level: tag, switch: g.1, switch_inverted: g.2, rect: rects[j] });
            proof {
                assert(block.take(j + 1) == block.take(j as int).push(block[j as int]));
            }
            j = j + 1;
        }
        let ghost next = if gi + 1 < ranks@.len() { ranks@[gi + 1] as int } else { 0x1_0000_0000_0000int };
        proof {
            assert(block.take(rects@.len() as int) == block);
            assert forall|k: int| 0 <= k < cells@.len() implies !(r < group_rank3((#[trigger] cells@[k]).2) < next) by {
                let rk = group_rank3(cells@[k].2);
                assert(0 <= rk < 0x1_0000_0000_0000int) by {
                    assert(0 <= crate::barrier_merge::switch_rank(cells@[k].2.1) <= 0x1_0000);
                }
                if r < rk && rk < next {
                    assert(ranks@.contains(rk as u64));
                    let p = choose|p: int| 0 <= p < ranks@.len() && ranks@[p] == rk as u64;
                    if p <= gi {
                        if p < gi {
                            assert(ranks@[p] < ranks@[gi as int]);
                        }
                    } else if gi + 1 < ranks@.len() {
                        if p > gi + 1 {
                            assert(ranks@[gi + 1] < ranks@[p]);
                        }
                    }
                }
            }
            assert(r < next) by {
                if gi + 1 < ranks@.len() {
                    assert(ranks@[gi as int] < ranks@[gi + 1]);
                }
            }
            lemma_merged_step(cells@, tag, out_before, r, next, g, members@, rects@, block);
        }
        gi = gi + 1;
    }
    proof {
        reveal(merged_upto);
        assert forall|k: int| 0 <= k < cells@.len() implies covered_in(out@, #[trigger] cells@[k]) by {
            assert(0 <= crate::barrier_merge::switch_rank(cells@[k].2.1) <= 0x1_0000);
            assert(group_rank3(cells@[k].2) < 0x1_0000_0000_0000int);
        }
    }
    out
}

/// The resolved cell of a known bridge def.
pub open spec fn bridge_cell(scope: CompileScope, d: LightBridgeDef) -> BridgeCell {
    (d.col, d.row, bridge_group(scope, d))
}

/// The error for the unknown bridge cell `k` of level `l`: its kind if that
/// is unknown, else its switch.
pub open spec fn bridge_error(scope: CompileScope, l: int, k: int, d: LightBridgeDef) -> MapError {
    if name_index(scope.bridge_table.ids@, d.kind@) is None {
        MapError::UnknownBridgeKind { level: l as usize, index: k as usize, kind: d.kind }
    } else {
        MapError::UnknownSwitch {
            place: SwitchUse::LightBridge { level: l as usize },
            index: k as usize,
            name: d.switch.unwrap(),
        }
    }
}

pub open spec fn bridges_known_before(m: MapDef, scope: CompileScope, l: int, k: int) -> bool {
    &&& forall|a: int, b: int|
        0 <= a < l && 0 <= b < m.levels@[a].light_bridges@.len() ==> bridge_known(
            scope,
            #[trigger] m.levels@[a].light_bridges@[b],
        )
    &&& forall|b: int| 0 <= b < k ==> bridge_known(scope, #[trigger] m.levels@[l].light_bridges@[b])
}

pub open spec fn first_bridge_error(m: MapDef, scope: CompileScope, e: MapError) -> bool {
    exists|l: int, k: int|
        0 <= l < m.levels@.len() && 0 <= k < m.levels@[l].light_bridges@.len() && bridges_known_before(m, scope, l, k)
            && !bridge_known(scope, #[trigger] m.levels@[l].light_bridges@[k]) && e == bridge_error(
            scope,
            l,
            k,
            m.levels@[l].light_bridges@[k],
        )
}

/// Every bridge cell of the map lies where rectangles can hold it.
pub open spec fn map_bridges_fit(m: MapDef) -> bool {
    forall|l: int| 0 <= l < m.levels@.len() ==> bridge_cells_fit((#[trigger] m.levels@[l]).light_bridges@)
}

/// The light bridges of every level, merged into rectangles per group.
pub fn compile_light_bridges(m: &MapDef, scope: &CompileScope) -> (res: Result<Vec<Vec<LightBridgeRun>>, MapError>)
    requires
        scope.wf(),
        map_bridges_fit(*m),
    ensures
        match res {
            Ok(levels) => {
                &&& levels@.len() == m.levels@.len()
                &&& forall|l: int, k: int|
                    0 <= l < m.levels@.len() && 0 <= k < m.levels@[l].light_bridges@.len() ==> bridge_known(
                        *scope,
                        #[trigger] m.levels@[l].light_bridges@[k],
                    )
                &&& forall|l: int|
                    0 <= l < m.levels@.len() ==> bridges_merged(
                        m.levels@[l].light_bridges@.map_values(|d: LightBridgeDef| bridge_cell(*scope, d)),
                        spec_level_tag(l),
                        (#[trigger] levels@[l])@,
                    )
            },
            Err(e) => first_bridge_error(*m, *scope, e),
        },
{
    let mut out: Vec<Vec<LightBridgeRun>> = Vec::new();
    let mut l: usize = 0;
    while l < m.levels.len()
        invariant
            l <= m.levels@.len(),
            scope.wf(),
            map_bridges_fit(*m),
            out@.len() == l,
            bridges_known_before(*m, *scope, l as int, 0),
            forall|a: int|
                0 <= a < l ==> bridges_merged(
                    m.levels@[a].light_bridges@.map_values(|d: LightBridgeDef| bridge_cell(*scope, d)),
                    spec_level_tag(a),
                    (#[trigger] out@[a])@,
                ),
        decreases m.levels@.len() - l,
    {
        let level = &m.levels[l];
        let ghost defs = level.light_bridges@;
        proof {
            assert(bridge_cells_fit(m.levels@[l as int].light_bridges@));
        }
        let mut cells: Vec<BridgeCell> = Vec::new();
        let mut k: usize = 0;
        while k < level.light_bridges.len()
            invariant
                k <= defs.len(),
                defs == level.light_bridges@,
                l < m.levels@.len(),
                *level == m.levels@[l as int],
                scope.wf(),
                bridge_cells_fit(defs),
                bridges_known_before(*m, *scope, l as int, k as int),
                cells@.len() == k,
                forall|j: int| 0 <= j < k ==> #[trigger] cells@[j] == bridge_cell(*scope, defs[j]),
                forall|j: int| 0 <= j < k ==> (#[trigger] cells@[j]).0 < i32::MAX && cells@[j].1 < i32::MAX,
            decreases defs.len() - k,
        {
            let d = &level.light_bridges[k];
            let kind = scope.bridge_table.index_of(&d.kind);
            let switch = target_switch(scope, &d.switch);
            match (kind, switch) {
                (Some(kind), Some(switch)) => {
                    let cell = (d.col, d.row, (BridgeKindId(kind), switch, d.switch_inverted));
                    proof {
                        assert(cell == bridge_cell(*scope, defs[k as int]));
                        assert(bridge_known(*scope, m.levels@[l as int].light_bridges@[k as int]));
                        assert forall|c: int| 0 <= c < k + 1 implies bridge_known(*scope, #[trigger] m.levels@[l as int].light_bridges@[c]) by {
                        }
                        assert(defs[k as int].col < i32::MAX && defs[k as int].row < i32::MAX);
                    }
                    cells.push(cell);
                },
                (None, _) => {
                    proof {
                        assert(first_bridge_error(*m, *scope, bridge_error(*scope, l as int, k as int, defs[k as int])));
                    }
                    return Err(MapError::UnknownBridgeKind { level: l, index: k, kind: d.kind.clone() });
                },
                (Some(_), None) => {
                    let name = match &d.switch {
                        Some(n) => n.clone(),
                        None => String::new(),
                    };
                    proof {
                        assert(first_bridge_error(*m, *scope, bridge_error(*scope, l as int, k as int, defs[k as int])));
                    }
                    return Err(MapError::UnknownSwitch { place: SwitchUse::LightBridge { level: l }, index: k, name });
                },
            }
            k = k + 1;
        }
        let merged = merge_level_bridges(&cells, level_tag(l));
        proof {
            assert(cells@ == defs.map_values(|d: LightBridgeDef| bridge_cell(*scope, d)));
            assert forall|a: int, c: int|
                0 <= a < l + 1 && 0 <= c < m.levels@[a].light_bridges@.len() implies bridge_known(
                    *scope,
                    #[trigger] m.levels@[a].light_bridges@[c],
                ) by {
                if a == l {
                }
            }
        }
        out.push(merged);
        l = l + 1;
    }
    Ok(out)
}

/// The config id of a key item; its barrier kind names the barriers it opens.
pub open spec fn key_config_id() -> Seq<char> {
    "key"@
}

/// The name of a key item's barrier kind; none reads as empty.
pub open spec fn key_kind_name(it: ItemDef) -> Seq<char> {
    match it.kind {
        Some(k) => k@,
        None => Seq::empty(),
    }
}

/// What an item's type resolves to, if it resolves.
pub open spec fn item_type_of(scope: CompileScope, it: ItemDef) -> Option<ItemType> {
    if it.item_type@ == key_config_id() {
        match name_index(scope.kind_table.ids@, key_kind_name(it)) {
            Some(i) => Some(ItemType::Key(BarrierKindId(i as u16))),
            None => None,
        }
    } else {
        match name_index(scope.item_catalog.ids@, it.item_type@) {
            Some(i) => Some(ItemType::Catalog(i as u16)),
            None => None,
        }
    }
}

/// The item stands on a floor cell without a ramp.
pub open spec fn item_on_floor(grids: Seq<LevelGrid>, it: ItemDef) -> bool {
    let cell = grids[it.level as int].cells.cell(it.row as int, it.col as int);
    cell.has_floor && !cell.has_ramp
}

pub open spec fn item_ok(scope: CompileScope, grids: Seq<LevelGrid>, it: ItemDef) -> bool {
    item_type_of(scope, it) is Some && item_on_floor(grids, it)
}

/// `e` is the error for item `idx` that is not ok: an unknown key kind or
/// item type, else a cell without floor or with a ramp.
pub open spec fn item_error(scope: CompileScope, idx: int, it: ItemDef, e: MapError) -> bool {
    if item_type_of(scope, it) is None {
        if it.item_type@ == key_config_id() {
            e matches MapError::UnknownKeyKind { index, kind } && index == idx && kind@ == key_kind_name(it)
        } else {
            e == MapError::UnknownItemType { index: idx as usize, item_type: it.item_type }
        }
    } else {
        e == MapError::ItemNeedsFloor { index: idx as usize, item_type: it.item_type, level: it.level, col: it.col, row: it.row }
    }
}

/// Every item stands on an existing level, inside the grid.
pub open spec fn items_fit(m: MapDef) -> bool {
    forall|i: int|
        0 <= i < m.items@.len() ==> {
            let it = #[trigger] m.items@[i];
            &&& (it.level as int) < m.levels@.len()
            &&& 0 <= it.col < m.grid_cols
            &&& 0 <= it.row < m.grid_rows
        }
}

fn key_id() -> (s: String)
    ensures
        s@ == key_config_id(),
{
    String::from_str("key")
}

/// The map's items, each with its resolved type; an item must stand on a
/// floor cell without a ramp.
pub fn placed_items(m: &MapDef, scope: &CompileScope, grids: &Vec<LevelGrid>, carrier: CarrierId) -> (res: Result<
    Vec<PlacedItem>,
    MapError,
>)
    requires
        scope.wf(),
        items_fit(*m),
        grids@.len() == m.levels@.len(),
        forall|l: int| 0 <= l < grids@.len() ==> (#[trigger] grids@[l]).has_shape(m.grid_cols as int, m.grid_rows as int),
    ensures
        match res {
            Ok(items) => {
                &&& items@.len() == m.items@.len()
                &&& forall|i: int| 0 <= i < items@.len() ==> item_ok(*scope, grids@, #[trigger] m.items@[i])
                &&& forall|i: int|
                    0 <= i < items@.len() ==> #[trigger] items@[i] == (PlacedItem {
                        carrier,
                        level: spec_level_tag(m.items@[i].level as int),
                        col: m.items@[i].col,
                        row: m.items@[i].row,
                        item_type: item_type_of(*scope, m.items@[i]).unwrap(),
                    })
            },
            Err(e) => exists|k: int|
                0 <= k < m.items@.len() && !item_ok(*scope, grids@, #[trigger] m.items@[k]) && (forall|j: int|
                    0 <= j < k ==> item_ok(*scope, grids@, #[trigger] m.items@[j])) && item_error(*scope, k, m.items@[k], e),
        },
{
    let key = key_id();
    let mut items: Vec<PlacedItem> = Vec::new();
    let mut i: usize = 0;
    while i < m.items.len()
        invariant
            i <= m.items@.len(),
            scope.wf(),
            key@ == key_config_id(),
            items_fit(*m),
            grids@.len() == m.levels@.len(),
            forall|l: int| 0 <= l < grids@.len() ==> (#[trigger] grids@[l]).has_shape(m.grid_cols as int, m.grid_rows as int),
            items@.len() == i,
            forall|j: int| 0 <= j < i ==> item_ok(*scope, grids@, #[trigger] m.items@[j]),
            forall|j: int|
                0 <= j < i ==> #[trigger] items@[j] == (PlacedItem {
                    carrier,
                    level: spec_level_tag(m.items@[j].level as int),
                    col: m.items@[j].col,
                    row: m.items@[j].row,
                    item_type: item_type_of(*scope, m.items@[j]).unwrap(),
                }),
        decreases m.items@.len() - i,
    {
        let it = &m.items[i];
        proof {
            assert((it.level as int) < m.levels@.len() && 0 <= it.col < m.grid_cols && 0 <= it.row < m.grid_rows);
        }
        let item_type = if it.item_type == key {
            let name = match &it.kind {
                Some(k) => k.clone(),
                None => String::new(),
            };
            match scope.kind_table.index_of(&name) {
                Some(kind) => ItemType::Key(BarrierKindId(kind)),
                None => {
                    return Err(MapError::UnknownKeyKind { index: i, kind: name });
                },
            }
        } else {
            match scope.item_catalog.index_of(&it.item_type) {
                Some(index) => ItemType::Catalog(index),
                None => {
                    return Err(MapError::UnknownItemType { index: i, item_type: it.item_type.clone() });
                },
            }
        };
        let grid = &grids[it.level as usize];
        proof {
            assert(grid.has_shape(m.grid_cols as int, m.grid_rows as int));
            assert(grid.cells.rows@[it.row as int]@.len() == m.grid_cols);
        }
        let cell = grid.cells.rows[it.row as usize][it.col as usize];
        if !(cell.has_floor && !cell.has_ramp) {
            return Err(
                MapError::ItemNeedsFloor {
                    index: i,
                    item_type: it.item_type.clone(),
                    level: it.level,
                    col: it.col,
                    row: it.row,
                },
            );
        }
        items.push(PlacedItem { carrier, level: level_tag(it.level as usize), col: it.col, row: it.row, item_type });
        i = i + 1;
    }
    Ok(items)
}

/// The actor spawn zone of a zone def whose switch is known.
pub open spec fn actor_zone_record(switches: Seq<String>, carrier: CarrierId, z: ActorSpawnZoneDef) -> ActorSpawnZone {
    ActorSpawnZone {
        switch_inverted: z.switch_inverted,
        carrier,
        level: spec_level_tag(z.level as int),
        cols: z.cols,
        rows: z.rows,
        kind: z.kind,
        count: z.count,
        switch: switch_target(switches, z.switch).unwrap(),
    }
}

/// The map's actor spawn zones, each on its resolved switch.
pub fn actor_spawn_zones(m: &MapDef, scope: &CompileScope, carrier: CarrierId) -> (res: Result<
    Vec<ActorSpawnZone>,
    MapError,
>)
    requires
        scope.wf(),
    ensures
        match res {
            Ok(zones) => {
                &&& zones@.len() == m.actor_spawn_zones@.len()
                &&& forall|i: int|
                    0 <= i < zones@.len() ==> switch_target(scope.switch_table.ids@, (#[trigger] m.actor_spawn_zones@[i]).switch) is Some
                &&& forall|i: int|
                    0 <= i < zones@.len() ==> #[trigger] zones@[i] == actor_zone_record(
                        scope.switch_table.ids@,
                        carrier,
                        m.actor_spawn_zones@[i],
                    )
            },
            Err(e) => exists|k: int|
                0 <= k < m.actor_spawn_zones@.len() && switch_target(
                    scope.switch_table.ids@,
                    (#[trigger] m.actor_spawn_zones@[k]).switch,
                ) is None && (forall|j: int|
                    0 <= j < k ==> switch_target(scope.switch_table.ids@, (#[trigger] m.actor_spawn_zones@[j]).switch)
                        is Some) && e == (MapError::UnknownSwitch {
                    place: SwitchUse::ActorSpawnZone,
                    index: k as usize,
                    name: m.actor_spawn_zones@[k].switch.unwrap(),
                }),
        },
{
    let mut zones: Vec<ActorSpawnZone> = Vec::new();
    let mut i: usize = 0;
    while i < m.actor_spawn_zones.len()
        invariant
            i <= m.actor_spawn_zones@.len(),
            scope.wf(),
            zones@.len() == i,
            forall|j: int|
                0 <= j < i ==> switch_target(scope.switch_table.ids@, (#[trigger] m.actor_spawn_zones@[j]).switch) is Some,
            forall|j: int|
                0 <= j < i ==> #[trigger] zones@[j] == actor_zone_record(scope.switch_table.ids@, carrier, m.actor_spawn_zones@[j]),
        decreases m.actor_spawn_zones@.len() - i,
    {
        let z = &m.actor_spawn_zones[i];
        match target_switch(scope, &z.switch) {
            Some(switch) => {
                let zone = ActorSpawnZone {
                    switch_inverted: z.switch_inverted,
                    carrier,
                    level: level_tag(z.level as usize),
                    cols: z.cols,
                    rows: z.rows,
                    kind: z.kind.clone(),
                    count: z.count,
                    switch,
                };
                proof {
                    assert(zone == actor_zone_record(scope.switch_table.ids@, carrier, m.actor_spawn_zones@[i as int]));
                }
                zones.push(zone);
            },
            None => {
                let name = match &z.switch {
                    Some(n) => n.clone(),
                    None => String::new(),
                };
                return Err(MapError::UnknownSwitch { place: SwitchUse::ActorSpawnZone, index: i, name });
            },
        }
        i = i + 1;
    }
    Ok(zones)
}

/// The map's player spawn zones.
pub fn player_spawn_zones(m: &MapDef, carrier: CarrierId) -> (zones: Vec<PlayerSpawnZone>)
    ensures
        zones@.len() == m.player_spawn_zones@.len(),
        forall|i: int|
            0 <= i < zones@.len() ==> #[trigger] zones@[i] == (PlayerSpawnZone {
                carrier,
                level: spec_level_tag(m.player_spawn_zones@[i].level as int),
                cols: m.player_spawn_zones@[i].cols,
                rows: m.player_spawn_zones@[i].rows,
            }),
{
    let mut zones: Vec<PlayerSpawnZone> = Vec::new();
    let mut i: usize = 0;
    while i < m.player_spawn_zones.len()
        invariant
            i <= m.player_spawn_zones@.len(),
            zones@.len() == i,
            forall|j: int|
                0 <= j < i ==> #[trigger] zones@[j] == (PlayerSpawnZone {
                    carrier,
                    level: spec_level_tag(m.player_spawn_zones@[j].level as int),
                    cols: m.player_spawn_zones@[j].cols,
                    rows: m.player_spawn_zones@[j].rows,
                }),
        decreases m.player_spawn_zones@.len() - i,
    {
        let z = &m.player_spawn_zones[i];
        zones.push(PlayerSpawnZone { carrier, level: level_tag(z.level as usize), cols: z.cols, rows: z.rows });
        i = i + 1;
    }
    zones
}

/// A wall light that found its wall: its level, kind, cell and side.
#[derive(Clone, Debug)]
pub struct WallLightPick {
    pub level: u8,
    pub kind: String,
    pub row: i32,
    pub col: i32,
    pub side: CellSide,
}

pub open spec fn side_of(side: WallSide) -> CellSide {
    match side {
        WallSide::North => CellSide::North,
        WallSide::South => CellSide::South,
        WallSide::East => CellSide::East,
        WallSide::West => CellSide::West,
    }
}

pub fn cell_side_from_wall_side(side: WallSide) -> (c: CellSide)
    ensures
        c == side_of(side),
{
    match side {
        WallSide::North => CellSide::North,
        WallSide::South => CellSide::South,
        WallSide::East => CellSide::East,
        WallSide::West => CellSide::West,
    }
}

/// Whether `(row, col)` names a cell of the level.
pub fn cell_in_bounds(level: &LevelGrid, row: i32, col: i32) -> (b: bool)
    ensures
        b == level.cells.contains(row as int, col as int),
{
    row >= 0 && col >= 0 && (row as usize) < level.cells.rows.len() && (col as usize) < level.cells.rows[row as usize].len()
}

/// The light hangs in a cell of the level, on a side with a wall.
pub open spec fn light_fits(level: LevelGrid, d: WallLightDef) -> bool {
    level.cells.contains(d.row as int, d.col as int) && edge_on_side(level.edges, d.row as int, d.col as int, side_of(d.side))
}

/// The lights among the first `n` of `defs` that fit, in order.
pub open spec fn light_picks(level: LevelGrid, tag: u8, defs: Seq<WallLightDef>, n: int) -> Seq<(u8, Seq<char>, i32, i32, CellSide)>
    decreases n,
{
    if n <= 0 {
        Seq::empty()
    } else {
        let rest = light_picks(level, tag, defs, n - 1);
        let d = defs[n - 1];
        if light_fits(level, d) {
            rest.push((tag, d.kind@, d.row, d.col, side_of(d.side)))
        } else {
            rest
        }
    }
}

pub open spec fn pick_view(p: WallLightPick) -> (u8, Seq<char>, i32, i32, CellSide) {
    (p.level, p.kind@, p.row, p.col, p.side)
}

/// The wall lights of one level that hang in a cell of it on a side with a
/// wall; the others are dropped.
pub fn generate_wall_lights(level: &LevelGrid, level_idx: usize, defs: &Vec<WallLightDef>, grid_cols: i32, grid_rows: i32) -> (picks:
    Vec<WallLightPick>)
    requires
        level.has_shape(grid_cols as int, grid_rows as int),
    ensures
        picks@.map_values(|p: WallLightPick| pick_view(p)) == light_picks(
            *level,
            spec_level_tag(level_idx as int),
            defs@,
            defs@.len() as int,
        ),
{
    let tag = level_tag(level_idx);
    let mut picks: Vec<WallLightPick> = Vec::new();
    let mut k: usize = 0;
    while k < defs.len()
        invariant
            k <= defs@.len(),
            tag == spec_level_tag(level_idx as int),
            level.has_shape(grid_cols as int, grid_rows as int),
            picks@.map_values(|p: WallLightPick| pick_view(p)) == light_picks(*level, tag, defs@, k as int),
        decreases defs@.len() - k,
    {
        let d = &defs[k];
        let ghost before = picks@;
        if cell_in_bounds(level, d.row, d.col) {
            let side = cell_side_from_wall_side(d.side);
            proof {
                assert(level.cells.rows@[d.row as int]@.len() == grid_cols);
                lemma_cell_sides_in(level.edges, grid_cols as int, grid_rows as int, d.row as int, d.col as int);
            }
            if has_edge_on_cell_side(&level.edges, d.row, d.col, side) {
                picks.push(WallLightPick { level: tag, kind: d.kind.clone(), row: d.row, col: d.col, side });
                proof {
                    assert(picks@.map_values(|p: WallLightPick| pick_view(p)) =~= before.map_values(|p: WallLightPick| pick_view(p)).push(
                        (tag, d.kind@, d.row, d.col, side_of(d.side)),
                    ));
                }
            }
        }
        k = k + 1;
    }
    picks
}

/// The map's ramps, as placed.
pub fn place_ramps(m: &MapDef) -> (ramps: Vec<RampSpec>)
    requires
        map_valid(*m),
    ensures
        ramps@ == map_ramps(*m),
{
    let mut ramps: Vec<RampSpec> = Vec::new();
    let mut i: usize = 0;
    while i < m.ramps.len()
        invariant
            i <= m.ramps@.len(),
            map_valid(*m),
            ramps@ == m.ramps@.take(i as int).map_values(|r: crate::schema::RampDef| spec_ramp_from_def(r)),
        decreases m.ramps@.len() - i,
    {
        proof {
            assert(crate::validation::ramp_ok(m.ramps@[i as int], m.grid_cols as int, m.grid_rows as int, m.levels@.len() as int));
        }
        let spec = ramp_spec_from_def(&m.ramps[i]);
        ramps.push(spec);
        proof {
            assert(ramps@ =~= m.ramps@.take(i + 1).map_values(|r: crate::schema::RampDef| spec_ramp_from_def(r)));
        }
        i = i + 1;
    }
    proof {
        assert(m.ramps@.take(m.ramps@.len() as int) == m.ramps@);
    }
    ramps
}

/// The horizontal edges `(row, col)` a ramp arrives over at its high end:
/// the north or south side of its footprint. A ramp rising east or west
/// arrives over vertical edges, which carry no corner filler.
pub open spec fn arrival_edges(r: RampSpec) -> Seq<(i32, i32)> {
    let n = span(r.cols[0] as int, r.cols[1] as int);
    match r.direction {
        RampDirection::North => Seq::new(n, |j: int| (r.rows[0], (r.cols[0] + j) as i32)),
        RampDirection::South => Seq::new(n, |j: int| (r.rows[1], (r.cols[0] + j) as i32)),
        _ => Seq::empty(),
    }
}

/// The arrival edges of those of the first `k` ramps that rise onto storey
/// `level` from the one below, in ramp order.
pub open spec fn landing_edges(ramps: Seq<RampSpec>, level: int, k: int) -> Seq<(i32, i32)>
    decreases k,
{
    if k <= 0 {
        Seq::empty()
    } else {
        landing_edges(ramps, level, k - 1) + if ramps[k - 1].lower_level + 1 == level {
            arrival_edges(ramps[k - 1])
        } else {
            Seq::empty()
        }
    }
}

/// The edges over which ramps land on storey `level`.
pub fn ramp_landings(ramps: &Vec<RampSpec>, level: usize) -> (edges: Vec<(i32, i32)>)
    ensures
        edges@ == landing_edges(ramps@, level as int, ramps@.len() as int),
{
    let mut edges: Vec<(i32, i32)> = Vec::new();
    let mut k: usize = 0;
    while k < ramps.len()
        invariant
            k <= ramps@.len(),
            edges@ == landing_edges(ramps@, level as int, k as int),
        decreases ramps@.len() - k,
    {
        let r = ramps[k];
        let ghost before = edges@;
        if (r.lower_level as u64) + 1 == level as u64 {
            let north = match r.direction {
                RampDirection::North => true,
                _ => false,
            };
            let south = match r.direction {
                RampDirection::South => true,
                _ => false,
            };
            if north || south {
                let row = if north {
                    r.rows[0]
                } else {
                    r.rows[1]
                };
                let mut c = r.cols[0];
                while c < r.cols[1]
                    invariant
                        north || south,
                        north == (r.direction == RampDirection::North),
                        south == (r.direction == RampDirection::South),
                        row == if north { r.rows[0] } else { r.rows[1] },
                        r.cols[0] <= c <= r.cols[1] || (c == r.cols[0] && r.cols[1] < r.cols[0]),
                        edges@ == before + arrival_edges(r).take(span(r.cols[0] as int, c as int) as int),
                    decreases r.cols[1] - c,
                {
                    proof {
                        let n = span(r.cols[0] as int, r.cols[1] as int);
                        assert(0 <= c - r.cols[0] < n);
                        if north {
                            assert(arrival_edges(r) == Seq::new(n, |j: int| (r.rows[0], (r.cols[0] + j) as i32)));
                        } else {
                            assert(arrival_edges(r) == Seq::new(n, |j: int| (r.rows[1], (r.cols[0] + j) as i32)));
                        }
                        assert(arrival_edges(r).len() == n);
                        assert(arrival_edges(r)[c - r.cols[0]] == (row, c));
                        assert(arrival_edges(r).take(span(r.cols[0] as int, c + 1) as int) =~= arrival_edges(r).take(
                            span(r.cols[0] as int, c as int) as int,
                        ).push((row, c)));
                    }
                    edges.push((row, c));
                    c = c + 1;
                }
                proof {
                    assert(arrival_edges(r).take(span(r.cols[0] as int, c as int) as int) =~= arrival_edges(r));
                }
            } else {
                proof {
                    assert(arrival_edges(r) =~= Seq::<(i32, i32)>::empty());
                    assert(edges@ =~= before + arrival_edges(r));
                }
            }
        } else {
            proof {
                assert(edges@ =~= before + Seq::<(i32, i32)>::empty());
            }
        }
        k = k + 1;
    }
    edges
}

/// The slab plans of every storey: each slab mask, with no corner filler
/// over an edge where a ramp lands from the storey below.
#[verifier::opaque]
pub open spec fn floors_done(m: MapDef, ramps: Seq<RampSpec>, slabs: Seq<Mask>, plans: Seq<Vec<SlabPlan>>) -> bool {
    &&& plans.len() == m.levels@.len()
    &&& forall|l: int|
        0 <= l < m.levels@.len() ==> (#[trigger] plans[l])@ == tier_plans(
            slabs[l]@,
            landing_edges(ramps, l, ramps.len() as int),
            m.grid_cols as int,
            m.grid_rows as int,
            m.grid_rows as int,
        )
}

fn compile_floor_plans(m: &MapDef, ramps: &Vec<RampSpec>, slabs: &Vec<Mask>) -> (plans: Vec<Vec<SlabPlan>>)
    requires
        m.grid_cols > 0,
        m.grid_rows > 0,
        slabs_done(*m, slabs@),
    ensures
        floors_done(*m, ramps@, slabs@, plans@),
{
    proof {
        reveal(slabs_done);
    }
    let mut plans: Vec<Vec<SlabPlan>> = Vec::new();
    let mut l: usize = 0;
    while l < slabs.len()
        invariant
            l <= slabs@.len(),
            m.grid_cols > 0,
            m.grid_rows > 0,
            slabs@.len() == m.levels@.len(),
            forall|j: int| 0 <= j < m.levels@.len() ==> level_mask_ok(*m, j, (#[trigger] slabs@[j])@, true),
            plans@.len() == l,
            forall|j: int|
                0 <= j < l ==> (#[trigger] plans@[j])@ == tier_plans(
                    slabs@[j]@,
                    landing_edges(ramps@, j, ramps@.len() as int),
                    m.grid_cols as int,
                    m.grid_rows as int,
                    m.grid_rows as int,
                ),
        decreases slabs@.len() - l,
    {
        proof {
            assert(level_mask_ok(*m, l as int, slabs@[l as int]@, true));
        }
        let skip = ramp_landings(ramps, l);
        let tier = emit_floor_tier(&slabs[l], &skip, m.grid_cols, m.grid_rows);
        plans.push(tier);
        l = l + 1;
    }
    proof {
        reveal(floors_done);
    }
    plans
}

/// A terrain cell: a floor slab whose top takes the procedural terrain
/// material.
#[derive(Clone, Copy, Debug, PartialEq, Eq, Structural)]
pub struct TerrainCell {
    pub level: u8,
    pub col: i32,
    pub row: i32,
}

/// The terrain cells of the storeys before `l`, storey by storey in
/// authored order.
pub open spec fn terrain_of(m: MapDef, l: int) -> Seq<TerrainCell>
    decreases l,
{
    if l <= 0 {
        Seq::empty()
    } else {
        terrain_of(m, l - 1) + m.levels@[l - 1].terrain@.map_values(
            |c: CellDef| TerrainCell { level: spec_level_tag(l - 1), col: c.col, row: c.row },
        )
    }
}

fn compile_terrain(m: &MapDef) -> (cells: Vec<TerrainCell>)
    ensures
        cells@ == terrain_of(*m, m.levels@.len() as int),
{
    let mut cells: Vec<TerrainCell> = Vec::new();
    let mut l: usize = 0;
    while l < m.levels.len()
        invariant
            l <= m.levels@.len(),
            cells@ == terrain_of(*m, l as int),
        decreases m.levels@.len() - l,
    {
        let tag = level_tag(l);
        let terrain = &m.levels[l].terrain;
        let ghost before = cells@;
        let ghost mapped = terrain@.map_values(
            |c: CellDef| TerrainCell { level: spec_level_tag(l as int), col: c.col, row: c.row },
        );
        let mut k: usize = 0;
        while k < terrain.len()
            invariant
                k <= terrain@.len(),
                tag == spec_level_tag(l as int),
                terrain@ == m.levels@[l as int].terrain@,
                mapped == terrain@.map_values(
                    |c: CellDef| TerrainCell { level: spec_level_tag(l as int), col: c.col, row: c.row },
                ),
                cells@ == before + mapped.take(k as int),
            decreases terrain@.len() - k,
        {
            cells.push(TerrainCell { level: tag, col: terrain[k].col, row: terrain[k].row });
            proof {
                assert(mapped.take(k + 1) =~= mapped.take(k as int).push(mapped[k as int]));
            }
            k = k + 1;
        }
        proof {
            assert(mapped.take(k as int) =~= mapped);
        }
        l = l + 1;
    }
    cells
}

/// One map compiled in grid space.
#[derive(Clone, Debug)]
pub struct CompiledMap {
    pub carrier: CarrierId,
    pub levels: Vec<LevelGrid>,
    pub slab_masks: Vec<Mask>,
    pub ramps: Vec<RampSpec>,
    pub barriers: Vec<BarrierRun>,
    pub light_bridges: Vec<Vec<LightBridgeRun>>,
    pub pressure_plates: Vec<PressurePlateRuntime>,
    pub placed_items: Vec<PlacedItem>,
    pub actor_spawn_zones: Vec<ActorSpawnZone>,
    pub player_spawn_zones: Vec<PlayerSpawnZone>,
    pub wall_lights: Vec<Vec<WallLightPick>>,
    pub floor_plans: Vec<Vec<SlabPlan>>,
    pub terrain: Vec<TerrainCell>,
}

/// What compilation asks of a map beyond validation: at most 256 storeys,
/// its cells on the grid (which validation already checks), bridge cells
/// short of the last column and row an `i32` can name, and items on the
/// grid.
pub open spec fn compilable(m: MapDef) -> bool {
    &&& map_valid(m)
    &&& m.levels@.len() <= 256
    &&& map_cells_fit(m)
    &&& map_bridges_fit(m)
    &&& items_fit(m)
}

pub open spec fn plates_ok(m: MapDef, scope: CompileScope) -> bool {
    forall|i: int| 0 <= i < m.pressure_plates@.len() ==> plate_known(scope.switch_table.ids@, #[trigger] m.pressure_plates@[i])
}

pub open spec fn barriers_ok(m: MapDef, scope: CompileScope) -> bool {
    forall|l: int, k: int|
        0 <= l < m.levels@.len() && 0 <= k < m.levels@[l].barriers@.len() ==> barrier_known(scope, #[trigger] m.levels@[l].barriers@[k])
}

pub open spec fn bridges_ok(m: MapDef, scope: CompileScope) -> bool {
    forall|l: int, k: int|
        0 <= l < m.levels@.len() && 0 <= k < m.levels@[l].light_bridges@.len() ==> bridge_known(
            scope,
            #[trigger] m.levels@[l].light_bridges@[k],
        )
}

/// The item's type resolves and its compiled cell has a floor and no ramp.
pub open spec fn item_fine(m: MapDef, scope: CompileScope, it: ItemDef) -> bool {
    let cell = compiled_cell(m, map_ramps(m), it.level as int, it.row as int, it.col as int);
    item_type_of(scope, it) is Some && cell.has_floor && !cell.has_ramp
}

pub open spec fn items_ok(m: MapDef, scope: CompileScope) -> bool {
    forall|i: int| 0 <= i < m.items@.len() ==> item_fine(m, scope, #[trigger] m.items@[i])
}

/// On compiled grids an item is ok exactly when it is fine.
proof fn lemma_item_ok_fine(m: MapDef, scope: CompileScope, grids: Seq<LevelGrid>, it: ItemDef)
    requires
        grids.len() == m.levels@.len(),
        forall|l: int| 0 <= l < m.levels@.len() ==> level_compiled(m, scope.plated_switches@, map_ramps(m), l, #[trigger] grids[l]),
        (it.level as int) < m.levels@.len(),
        0 <= it.col < m.grid_cols,
        0 <= it.row < m.grid_rows,
    ensures
        item_ok(scope, grids, it) == item_fine(m, scope, it),
{
    assert(level_compiled(m, scope.plated_switches@, map_ramps(m), it.level as int, grids[it.level as int]));
}

pub open spec fn zones_ok(m: MapDef, scope: CompileScope) -> bool {
    forall|i: int|
        0 <= i < m.actor_spawn_zones@.len() ==> switch_target(scope.switch_table.ids@, (#[trigger] m.actor_spawn_zones@[i]).switch)
            is Some
}

#[verifier::opaque]
pub open spec fn levels_done(m: MapDef, scope: CompileScope, levels: Seq<LevelGrid>) -> bool {
    &&& levels.len() == m.levels@.len()
    &&& forall|l: int| 0 <= l < m.levels@.len() ==> level_compiled(m, scope.plated_switches@, map_ramps(m), l, #[trigger] levels[l])
}

#[verifier::opaque]
pub open spec fn slabs_done(m: MapDef, slabs: Seq<Mask>) -> bool {
    &&& slabs.len() == m.levels@.len()
    &&& forall|l: int| 0 <= l < m.levels@.len() ==> level_mask_ok(m, l, (#[trigger] slabs[l])@, true)
}

#[verifier::opaque]
pub open spec fn barriers_done(m: MapDef, scope: CompileScope, slabs: Seq<Mask>, barriers: Seq<BarrierRun>) -> bool {
    exists|lv: Seq<Vec<BarrierEdge>>, runs: Seq<BarrierRun>|
        barriers_resolved(m, scope, lv) && stacked(lv, slabs, runs) && merged_layout(runs, barriers)
}

#[verifier::opaque]
pub open spec fn bridges_done(m: MapDef, scope: CompileScope, bridges: Seq<Vec<LightBridgeRun>>) -> bool {
    &&& bridges.len() == m.levels@.len()
    &&& forall|l: int|
        0 <= l < m.levels@.len() ==> bridges_merged(
            m.levels@[l].light_bridges@.map_values(|d: LightBridgeDef| bridge_cell(scope, d)),
            spec_level_tag(l),
            (#[trigger] bridges[l])@,
        )
}

#[verifier::opaque]
pub open spec fn plates_done(m: MapDef, scope: CompileScope, carrier: CarrierId, plates: Seq<PressurePlateRuntime>) -> bool {
    &&& plates.len() == m.pressure_plates@.len()
    &&& forall|i: int|
        0 <= i < m.pressure_plates@.len() ==> #[trigger] plates[i] == plate_record(scope.switch_table.ids@, carrier, m.pressure_plates@[i])
}

#[verifier::opaque]
pub open spec fn items_done(m: MapDef, scope: CompileScope, carrier: CarrierId, items: Seq<PlacedItem>) -> bool {
    &&& items.len() == m.items@.len()
    &&& forall|i: int|
        0 <= i < m.items@.len() ==> #[trigger] items[i] == (PlacedItem {
            carrier,
            level: spec_level_tag(m.items@[i].level as int),
            col: m.items@[i].col,
            row: m.items@[i].row,
            item_type: item_type_of(scope, m.items@[i]).unwrap(),
        })
}

#[verifier::opaque]
pub open spec fn zones_done(
    m: MapDef,
    scope: CompileScope,
    carrier: CarrierId,
    actors: Seq<ActorSpawnZone>,
    players: Seq<PlayerSpawnZone>,
) -> bool {
    &&& actors.len() == m.actor_spawn_zones@.len()
    &&& forall|i: int|
        0 <= i < m.actor_spawn_zones@.len() ==> #[trigger] actors[i] == actor_zone_record(
            scope.switch_table.ids@,
            carrier,
            m.actor_spawn_zones@[i],
        )
    &&& players.len() == m.player_spawn_zones@.len()
    &&& forall|i: int|
        0 <= i < m.player_spawn_zones@.len() ==> #[trigger] players[i] == (PlayerSpawnZone {
            carrier,
            level: spec_level_tag(m.player_spawn_zones@[i].level as int),
            cols: m.player_spawn_zones@[i].cols,
            rows: m.player_spawn_zones@[i].rows,
        })
}

#[verifier::opaque]
pub open spec fn lights_done(m: MapDef, levels: Seq<LevelGrid>, lights: Seq<Vec<WallLightPick>>) -> bool {
    &&& lights.len() == m.levels@.len()
    &&& forall|l: int|
        0 <= l < m.levels@.len() ==> (#[trigger] lights[l])@.map_values(|p: WallLightPick| pick_view(p)) == light_picks(
            levels[l],
            spec_level_tag(l),
            m.levels@[l].lights@,
            m.levels@[l].lights@.len() as int,
        )
}

/// `c` is the map compiled on `carrier`, every name resolved.
pub open spec fn map_compiled(m: MapDef, scope: CompileScope, carrier: CarrierId, c: CompiledMap) -> bool {
    &&& plates_ok(m, scope) && barriers_ok(m, scope) && bridges_ok(m, scope) && items_ok(m, scope) && zones_ok(m, scope)
    &&& levels_done(m, scope, c.levels@)
    &&& slabs_done(m, c.slab_masks@)
    &&& c.ramps@ == map_ramps(m)
    &&& barriers_done(m, scope, c.slab_masks@, c.barriers@)
    &&& bridges_done(m, scope, c.light_bridges@)
    &&& plates_done(m, scope, carrier, c.pressure_plates@)
    &&& items_done(m, scope, carrier, c.placed_items@)
    &&& zones_done(m, scope, carrier, c.actor_spawn_zones@, c.player_spawn_zones@)
    &&& lights_done(m, c.levels@, c.wall_lights@)
    &&& floors_done(m, c.ramps@, c.slab_masks@, c.floor_plans@)
    &&& c.terrain@ == terrain_of(m, m.levels@.len() as int)
    &&& c.carrier == carrier
}

/// `e` is the error of the first name that does not resolve, in the order
/// plates, barriers, light bridges, items, actor zones.
pub open spec fn compile_failed(m: MapDef, scope: CompileScope, e: MapError) -> bool {
    ||| !plates_ok(m, scope) && exists|k: int|
        0 <= k < m.pressure_plates@.len() && !plate_known(scope.switch_table.ids@, #[trigger] m.pressure_plates@[k])
            && (forall|j: int| 0 <= j < k ==> plate_known(scope.switch_table.ids@, #[trigger] m.pressure_plates@[j])) && e
            == (MapError::UnknownSwitch { place: SwitchUse::PressurePlate, index: k as usize, name: m.pressure_plates@[k].switch })
    ||| plates_ok(m, scope) && first_barrier_error(m, scope, e)
    ||| plates_ok(m, scope) && barriers_ok(m, scope) && first_bridge_error(m, scope, e)
    ||| plates_ok(m, scope) && barriers_ok(m, scope) && bridges_ok(m, scope) && exists|k: int|
        0 <= k < m.items@.len() && !item_fine(m, scope, #[trigger] m.items@[k]) && (forall|j: int|
            0 <= j < k ==> item_fine(m, scope, #[trigger] m.items@[j])) && item_error(scope, k, m.items@[k], e)
    ||| plates_ok(m, scope) && barriers_ok(m, scope) && bridges_ok(m, scope) && items_ok(m, scope) && exists|k: int|
        0 <= k < m.actor_spawn_zones@.len() && switch_target(scope.switch_table.ids@, (#[trigger] m.actor_spawn_zones@[k]).switch)
            is None && (forall|j: int|
            0 <= j < k ==> switch_target(scope.switch_table.ids@, (#[trigger] m.actor_spawn_zones@[j]).switch) is Some) && e
            == (MapError::UnknownSwitch {
            place: SwitchUse::ActorSpawnZone,
            index: k as usize,
            name: m.actor_spawn_zones@[k].switch.unwrap(),
        })
}

/// What compiles before the actor zones' switches resolve: the plates',
/// barriers', light bridges' and items' names all resolve.
pub open spec fn layout_ok(m: MapDef, scope: CompileScope) -> bool {
    plates_ok(m, scope) && barriers_ok(m, scope) && bridges_ok(m, scope) && items_ok(m, scope)
}

/// `c` holds the map's grids and layout records on `carrier`, and no zones
/// or items yet: what a map has given the tree's output by the time its
/// actor zones' switches resolve.
pub open spec fn layout_compiled(m: MapDef, scope: CompileScope, carrier: CarrierId, c: CompiledMap) -> bool {
    &&& layout_ok(m, scope)
    &&& levels_done(m, scope, c.levels@)
    &&& slabs_done(m, c.slab_masks@)
    &&& c.ramps@ == map_ramps(m)
    &&& barriers_done(m, scope, c.slab_masks@, c.barriers@)
    &&& bridges_done(m, scope, c.light_bridges@)
    &&& plates_done(m, scope, carrier, c.pressure_plates@)
    &&& lights_done(m, c.levels@, c.wall_lights@)
    &&& floors_done(m, c.ramps@, c.slab_masks@, c.floor_plans@)
    &&& c.terrain@ == terrain_of(m, m.levels@.len() as int)
    &&& c.carrier == carrier
    &&& c.placed_items@.len() == 0
    &&& c.actor_spawn_zones@.len() == 0
    &&& c.player_spawn_zones@.len() == 0
}

/// Compile one map on `carrier` up to its zones: its level grids, barrier
/// runs, bridge rectangles, plates, wall lights, floor plans and terrain,
/// with its items resolved alongside. Names resolve in this order, and the
/// first that does not is the error: the plates' switches, the barriers',
/// the light bridges', the items' types.
pub fn compile_map_layout(m: &MapDef, scope: &CompileScope, carrier: CarrierId) -> (res: Result<
    (CompiledMap, Vec<PlacedItem>),
    MapError,
>)
    requires
        compilable(*m),
        scope.wf(),
    ensures
        match res {
            Ok((c, items)) => layout_compiled(*m, *scope, carrier, c) && items_done(*m, *scope, carrier, items@),
            Err(e) => compile_failed(*m, *scope, e) && !layout_ok(*m, *scope),
        },
{
    let (regular, slabs) = floor_masks(m);
    let ramps = place_ramps(m);
    let pressure_plates = match pressure_plates(m, scope, carrier) {
        Ok(p) => p,
        Err(e) => {
            return Err(e);
        },
    };
    proof {
        assert(plates_done(*m, *scope, carrier, pressure_plates@)) by {
            reveal(plates_done);
        }
        assert(slabs_done(*m, slabs@)) by {
            reveal(slabs_done);
        }
    }
    let levels = compile_level_grids(m, &scope.plated_switches, &regular, &slabs, &ramps);
    proof {
        assert(levels_done(*m, *scope, levels@)) by {
            reveal(levels_done);
        }
    }
    let barriers = match compile_barriers(m, scope, &slabs) {
        Ok(b) => b,
        Err(e) => {
            return Err(e);
        },
    };
    proof {
        assert(barriers_done(*m, *scope, slabs@, barriers@)) by {
            reveal(barriers_done);
        }
    }
    let light_bridges = match compile_light_bridges(m, scope) {
        Ok(b) => b,
        Err(e) => {
            return Err(e);
        },
    };
    proof {
        assert(bridges_done(*m, *scope, light_bridges@)) by {
            reveal(bridges_done);
        }
        reveal(levels_done);
        assert forall|i: int| 0 <= i < m.items@.len() implies item_ok(*scope, levels@, #[trigger] m.items@[i]) == item_fine(*m, *scope, m.items@[i]) by {
            lemma_item_ok_fine(*m, *scope, levels@, m.items@[i]);
        }
        assert forall|l: int| 0 <= l < levels@.len() implies (#[trigger] levels@[l]).has_shape(m.grid_cols as int, m.grid_rows as int) by {
            assert(level_compiled(*m, scope.plated_switches@, map_ramps(*m), l, levels@[l]));
        }
    }
    let placed_items = match placed_items(m, scope, &levels, carrier) {
        Ok(items) => items,
        Err(e) => {
            return Err(e);
        },
    };
    proof {
        assert(items_done(*m, *scope, carrier, placed_items@)) by {
            reveal(items_done);
        }
    }
    let wall_lights = compile_wall_lights(m, scope, &levels);
    let floor_plans = compile_floor_plans(m, &ramps, &slabs);
    let terrain = compile_terrain(m);
    Ok(
        (
            CompiledMap {
                carrier,
                levels,
                slab_masks: slabs,
                ramps,
                barriers,
                light_bridges,
                pressure_plates,
                placed_items: Vec::new(),
                actor_spawn_zones: Vec::new(),
                player_spawn_zones: Vec::new(),
                wall_lights,
                floor_plans,
                terrain,
            },
            placed_items,
        ),
    )
}

/// Compile one map on `carrier`: its level grids, barrier runs, bridge
/// rectangles, plates, items, spawn zones, wall lights, floor plans and
/// terrain. Names resolve in this order, and the first that does not is the
/// error: the plates' switches, the barriers', the light bridges', the
/// items' types, the actor zones' switches.
pub fn compile_grid_map(m: &MapDef, scope: &CompileScope, carrier: CarrierId) -> (res: Result<CompiledMap, MapError>)
    requires
        compilable(*m),
        scope.wf(),
    ensures
        match res {
            Ok(c) => map_compiled(*m, *scope, carrier, c),
            Err(e) => compile_failed(*m, *scope, e),
        },
{
    let (c, items) = match compile_map_layout(m, scope, carrier) {
        Ok(parts) => parts,
        Err(e) => {
            return Err(e);
        },
    };
    match zones_of(m, scope, carrier) {
        Ok((actors, players)) => Ok(
            CompiledMap { placed_items: items, actor_spawn_zones: actors, player_spawn_zones: players, ..c },
        ),
        Err(e) => Err(e),
    }
}

/// The map's actor and player zones on `carrier`, once everything before
/// them resolved; the error is that of the first actor zone whose switch
/// does not resolve.
pub fn zones_of(m: &MapDef, scope: &CompileScope, carrier: CarrierId) -> (res: Result<
    (Vec<ActorSpawnZone>, Vec<PlayerSpawnZone>),
    MapError,
>)
    requires
        compilable(*m),
        scope.wf(),
        layout_ok(*m, *scope),
    ensures
        match res {
            Ok((actors, players)) => zones_ok(*m, *scope) && zones_done(*m, *scope, carrier, actors@, players@),
            Err(e) => compile_failed(*m, *scope, e) && !zones_ok(*m, *scope),
        },
{
    let actor_spawn_zones = match actor_spawn_zones(m, scope, carrier) {
        Ok(zones) => zones,
        Err(e) => {
            return Err(e);
        },
    };
    let player_spawn_zones = player_spawn_zones(m, carrier);
    proof {
        assert(zones_done(*m, *scope, carrier, actor_spawn_zones@, player_spawn_zones@)) by {
            reveal(zones_done);
        }
    }
    Ok((actor_spawn_zones, player_spawn_zones))
}

/// The wall lights of every level that find their wall.
fn compile_wall_lights(m: &MapDef, scope: &CompileScope, levels: &Vec<LevelGrid>) -> (lights: Vec<Vec<WallLightPick>>)
    requires
        compilable(*m),
        levels_done(*m, *scope, levels@),
    ensures
        lights_done(*m, levels@, lights@),
{
    proof {
        reveal(levels_done);
    }
    let mut wall_lights: Vec<Vec<WallLightPick>> = Vec::new();
    let mut l: usize = 0;
    while l < levels.len()
        invariant
            l <= levels@.len(),
            levels@.len() == m.levels@.len(),
            forall|j: int| 0 <= j < m.levels@.len() ==> level_compiled(*m, scope.plated_switches@, map_ramps(*m), j, #[trigger] levels@[j]),
            wall_lights@.len() == l,
            forall|j: int|
                0 <= j < l ==> (#[trigger] wall_lights@[j])@.map_values(|p: WallLightPick| pick_view(p)) == light_picks(
                    levels@[j],
                    spec_level_tag(j),
                    m.levels@[j].lights@,
                    m.levels@[j].lights@.len() as int,
                ),
        decreases levels@.len() - l,
    {
        proof {
            assert(level_compiled(*m, scope.plated_switches@, map_ramps(*m), l as int, levels@[l as int]));
        }
        let picks = generate_wall_lights(&levels[l], l, &m.levels[l].lights, m.grid_cols, m.grid_rows);
        wall_lights.push(picks);
        l = l + 1;
    }
    proof {
        reveal(lights_done);
    }
    wall_lights
}

} // verus!
