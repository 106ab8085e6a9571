use vstd::prelude::*;

use crate::ids::{CarrierId, ItemType, SwitchId, item_rank, item_rank_of};

verus! {

/// Cell flags. Light bridges deliberately set none of them: actors never
/// walk a bridge, and item, spawn, and air-graph cells ignore them too.
#[derive(Clone, Copy, Debug)]
pub struct Cell {
    pub has_ramp: bool,
    pub has_ramp_from_below: bool,
    pub has_floor: bool,
    pub has_floor_slab: bool,
    pub has_floor_above: bool,
    pub ramp_base_north: bool,
    pub ramp_base_south: bool,
    pub ramp_base_west: bool,
    pub ramp_base_east: bool,
    pub ramp_top_north: bool,
    pub ramp_top_south: bool,
    pub ramp_top_west: bool,
    pub ramp_top_east: bool,
}

impl Cell {
    /// A cell with no flag set.
    pub open spec fn empty() -> Cell {
        Cell {
            has_ramp: false,
            has_ramp_from_below: false,
            has_floor: false,
            has_floor_slab: false,
            has_floor_above: false,
            ramp_base_north: false,
            ramp_base_south: false,
            ramp_base_west: false,
            ramp_base_east: false,
            ramp_top_north: false,
            ramp_top_south: false,
            ramp_top_west: false,
            ramp_top_east: false,
        }
    }

    /// Spawn zones may target any cell that is not an obstruction and not an
    /// inaccessible-floor slab.
    pub open spec fn spawnable(self) -> bool {
        !self.has_ramp && !(self.has_floor_slab && !self.has_floor)
    }

    /// Standable floor with no slope in it or arriving into it.
    pub open spec fn flat_floor(self) -> bool {
        self.has_floor && !self.has_ramp && !self.has_ramp_from_below
    }

    /// Spawn zones may target any cell that is not an obstruction and not an
    /// inaccessible-floor slab. Empty cells are fine; flying actors do not
    /// need floor underfoot.
    pub fn is_spawnable(&self) -> (r: bool)
        ensures
            r == self.spawnable(),
    {
        if self.has_ramp {
            return false;
        }
        if self.has_floor_slab && !self.has_floor {
            return false;
        }
        true
    }

    /// Standable floor with no slope in it or arriving into it.
    pub fn is_flat_floor(&self) -> (r: bool)
        ensures
            r == self.flat_floor(),
    {
        self.has_floor && !self.has_ramp && !self.has_ramp_from_below
    }
}

impl Default for Cell {
    fn default() -> (c: Self)
        ensures
            c == Cell::empty(),
    {
        Cell {
            has_ramp: false,
            has_ramp_from_below: false,
            has_floor: false,
            has_floor_slab: false,
            has_floor_above: false,
            ramp_base_north: false,
            ramp_base_south: false,
            ramp_base_west: false,
            ramp_base_east: false,
            ramp_top_north: false,
            ramp_top_south: false,
            ramp_top_west: false,
            ramp_top_east: false,
        }
    }
}

/// The cells of one level, `rows[row][col]`.
#[derive(Clone, Debug)]
pub struct CellGrid {
    pub rows: Vec<Vec<Cell>>,
}

impl CellGrid {
    /// `grid_rows` rows of `grid_cols` cells each.
    pub open spec fn has_shape(self, grid_cols: int, grid_rows: int) -> bool {
        &&& self.rows@.len() == grid_rows
        &&& forall|r: int| 0 <= r < grid_rows ==> #[trigger] self.rows@[r]@.len() == grid_cols
    }

    pub open spec fn cell(self, row: int, col: int) -> Cell {
        self.rows@[row]@[col]
    }

    /// Whether `(row, col)` names a cell of this grid.
    pub open spec fn contains(self, row: int, col: int) -> bool {
        0 <= row < self.rows@.len() && 0 <= col < self.rows@[row]@.len()
    }

    /// A grid of `grid_rows` rows of `grid_cols` empty cells.
    pub fn new(grid_cols: i32, grid_rows: i32) -> (g: Self)
        requires
            grid_cols >= 0,
            grid_rows >= 0,
        ensures
            g.has_shape(grid_cols as int, grid_rows as int),
            forall|r: int, c: int|
                0 <= r < grid_rows && 0 <= c < grid_cols ==> #[trigger] g.cell(r, c) == Cell::empty(),
    {
        let mut rows: Vec<Vec<Cell>> = Vec::new();
        let mut r: i32 = 0;
        while r < grid_rows
            invariant
                0 <= r <= grid_rows,
                grid_cols >= 0,
                rows@.len() == r,
                forall|i: int| 0 <= i < r ==> #[trigger] rows@[i]@.len() == grid_cols,
                forall|i: int, c: int|
                    0 <= i < r && 0 <= c < grid_cols ==> #[trigger] rows@[i]@[c] == Cell::empty(),
            decreases grid_rows - r,
        {
            let mut row: Vec<Cell> = Vec::new();
            let mut c: i32 = 0;
            while c < grid_cols
                invariant
                    0 <= c <= grid_cols,
                    row@.len() == c,
                    forall|k: int| 0 <= k < c ==> #[trigger] row@[k] == Cell::empty(),
                decreases grid_cols - c,
            {
                row.push(Cell::default());
                c = c + 1;
            }
            rows.push(row);
            r = r + 1;
        }
        CellGrid { rows }
    }
}

/// Edges live on grid lines, not in cells.
///
/// `horizontal[row][col]` covers the horizontal segment from grid point
/// (col, row) to (col + 1, row), so its dimensions are
/// (grid_rows + 1) x grid_cols.
///
/// `vertical[row][col]` covers the vertical segment from grid point
/// (col, row) to (col, row + 1), so its dimensions are
/// grid_rows x (grid_cols + 1).
#[derive(Clone, Debug)]
pub struct EdgeGrid {
    pub horizontal: Vec<Vec<bool>>,
    pub vertical: Vec<Vec<bool>>,
}

/// `rows` rows of `cols` flags each.
pub open spec fn bool_rows_shape(v: Seq<Vec<bool>>, cols: int, rows: int) -> bool {
    &&& v.len() == rows
    &&& forall|r: int| 0 <= r < rows ==> #[trigger] v[r]@.len() == cols
}

impl EdgeGrid {
    pub open spec fn has_shape(self, grid_cols: int, grid_rows: int) -> bool {
        &&& bool_rows_shape(self.horizontal@, grid_cols, grid_rows + 1)
        &&& bool_rows_shape(self.vertical@, grid_cols + 1, grid_rows)
    }

    /// The horizontal edge from grid point (col, row) to (col + 1, row).
    pub open spec fn h(self, row: int, col: int) -> bool {
        self.horizontal@[row]@[col]
    }

    /// The vertical edge from grid point (col, row) to (col, row + 1).
    pub open spec fn v(self, row: int, col: int) -> bool {
        self.vertical@[row]@[col]
    }

    pub open spec fn h_in(self, row: int, col: int) -> bool {
        0 <= row < self.horizontal@.len() && 0 <= col < self.horizontal@[row]@.len()
    }

    pub open spec fn v_in(self, row: int, col: int) -> bool {
        0 <= row < self.vertical@.len() && 0 <= col < self.vertical@[row]@.len()
    }

    /// A grid of the given size with no edge set.
    pub fn new(grid_cols: i32, grid_rows: i32) -> (g: Self)
        requires
            0 <= grid_cols,
            0 <= grid_rows,
        ensures
            g.has_shape(grid_cols as int, grid_rows as int),
            forall|r: int, c: int| 0 <= r <= grid_rows && 0 <= c < grid_cols ==> !#[trigger] g.h(r, c),
            forall|r: int, c: int| 0 <= r < grid_rows && 0 <= c <= grid_cols ==> !#[trigger] g.v(r, c),
    {
        EdgeGrid {
            horizontal: false_rows(grid_cols as usize, grid_rows as usize + 1),
            vertical: false_rows(grid_cols as usize + 1, grid_rows as usize),
        }
    }
}

/// `rows` rows of `cols` cleared flags.
pub fn false_rows(cols: usize, rows: usize) -> (v: Vec<Vec<bool>>)
    ensures
        bool_rows_shape(v@, cols as int, rows as int),
        forall|r: int, c: int| 0 <= r < rows && 0 <= c < cols ==> !#[trigger] v@[r]@[c],
{
    let mut out: Vec<Vec<bool>> = Vec::new();
    let mut r: usize = 0;
    while r < rows
        invariant
            r <= rows,
            out@.len() == r,
            forall|i: int| 0 <= i < r ==> #[trigger] out@[i]@.len() == cols,
            forall|i: int, c: int| 0 <= i < r && 0 <= c < cols ==> !#[trigger] out@[i]@[c],
        decreases rows - r,
    {
        let mut row: Vec<bool> = Vec::new();
        let mut c: usize = 0;
        while c < cols
            invariant
                c <= cols,
                row@.len() == c,
                forall|k: int| 0 <= k < c ==> !#[trigger] row@[k],
            decreases cols - c,
        {
            row.push(false);
            c = c + 1;
        }
        out.push(row);
        r = r + 1;
    }
    out
}

/// One level of one map: its cells, its wall edges, and its barrier edges.
#[derive(Clone, Debug)]
pub struct LevelGrid {
    pub cells: CellGrid,
    /// Wall edges: block movement and generate the visible wall geometry.
    pub edges: EdgeGrid,
    /// Barrier edges: block actor pathfinding only. Holds the barriers an
    /// actor can never pass, those not controlled by a pressure plate.
    pub barrier_edges: EdgeGrid,
}

impl LevelGrid {
    pub open spec fn has_shape(self, grid_cols: int, grid_rows: int) -> bool {
        &&& self.cells.has_shape(grid_cols, grid_rows)
        &&& self.edges.has_shape(grid_cols, grid_rows)
        &&& self.barrier_edges.has_shape(grid_cols, grid_rows)
    }
}

/// The cells of the half-open rectangle `cols x rows`, each once, row by
/// row and left to right within a row.
pub open spec fn is_zone_listing(cells: Seq<(i32, i32)>, cols: [i32; 2], rows: [i32; 2]) -> bool {
    &&& forall|i: int| 0 <= i < cells.len() ==> {
        let (c, r) = #[trigger] cells[i];
        cols[0] <= c < cols[1] && rows[0] <= r < rows[1]
    }
    &&& forall|c: int, r: int|
        cols[0] <= c < cols[1] && rows[0] <= r < rows[1] ==> #[trigger] cells.contains((c as i32, r as i32))
    &&& forall|i: int, j: int| 0 <= i < j < cells.len() ==> cell_before(#[trigger] cells[i], #[trigger] cells[j])
}

/// Row-major order on `(col, row)` pairs.
pub open spec fn cell_before(a: (i32, i32), b: (i32, i32)) -> bool {
    a.1 < b.1 || (a.1 == b.1 && a.0 < b.0)
}

/// Every `(col, row)` of a zone rectangle, row by row.
pub fn zone_cells(cols: [i32; 2], rows: [i32; 2]) -> (cells: Vec<(i32, i32)>)
    ensures
        is_zone_listing(cells@, cols, rows),
{
    let mut cells: Vec<(i32, i32)> = Vec::new();
    if rows[1] <= rows[0] || cols[1] <= cols[0] {
        return cells;
    }
    let mut row = rows[0];
    while row < rows[1]
        invariant
            rows[0] <= row <= rows[1],
            cols[0] < cols[1],
            forall|i: int| 0 <= i < cells@.len() ==> {
                let (c, r) = #[trigger] cells@[i];
                cols[0] <= c < cols[1] && rows[0] <= r < row
            },
            forall|c: int, r: int|
                cols[0] <= c < cols[1] && rows[0] <= r < row ==> #[trigger] cells@.contains(
                    (c as i32, r as i32),
                ),
            forall|i: int, j: int|
                0 <= i < j < cells@.len() ==> cell_before(#[trigger] cells@[i], #[trigger] cells@[j]),
        decreases rows[1] - row,
    {
        let mut col = cols[0];
        let ghost before = cells@;
        while col < cols[1]
            invariant
                rows[0] <= row < rows[1],
                cols[0] <= col <= cols[1],
                cells@.len() >= before.len(),
                forall|i: int| 0 <= i < before.len() ==> cells@[i] == before[i],
                forall|i: int| 0 <= i < before.len() ==> {
                    let (c, r) = #[trigger] before[i];
                    cols[0] <= c < cols[1] && rows[0] <= r < row
                },
                forall|i: int| before.len() <= i < cells@.len() ==> {
                    let (c, r) = #[trigger] cells@[i];
                    cols[0] <= c < col && r == row
                },
                forall|c: int, r: int|
                    cols[0] <= c < cols[1] && rows[0] <= r < row ==> #[trigger] before.contains(
                        (c as i32, r as i32),
                    ),
                forall|c: int| cols[0] <= c < col ==> #[trigger] cells@.contains((c as i32, row)),
                forall|i: int, j: int|
                    0 <= i < j < cells@.len() ==> cell_before(#[trigger] cells@[i], #[trigger] cells@[j]),
            decreases cols[1] - col,
        {
            let ghost prev = cells@;
            cells.push((col, row));
            proof {
                assert(cells@[prev.len() as int] == (col, row));
                assert forall|i: int, j: int|
                    0 <= i < j < cells@.len() implies cell_before(#[trigger] cells@[i], #[trigger] cells@[j]) by {
                    if j == prev.len() {
                        if i < before.len() {
                            assert(cells@[i] == before[i]);
                        }
                    } else {
                        assert(cells@[i] == prev[i]);
                        assert(cells@[j] == prev[j]);
                    }
                }
                assert forall|c: int| cols[0] <= c < col + 1 implies #[trigger] cells@.contains(
                    (c as i32, row),
                ) by {
                    if c < col {
                        assert(prev.contains((c as i32, row)));
                        let k = choose|k: int| 0 <= k < prev.len() && #[trigger] prev[k] == (c as i32, row);
                        assert(cells@[k] == (c as i32, row));
                    } else {
                        assert(cells@[prev.len() as int] == (c as i32, row));
                    }
                }
            }
            col = col + 1;
        }
        proof {
            assert forall|i: int| 0 <= i < cells@.len() implies {
                let (c, r) = #[trigger] cells@[i];
                cols[0] <= c < cols[1] && rows[0] <= r < row + 1
            } by {
                if i < before.len() {
                    assert(cells@[i] == before[i]);
                }
            }
            assert forall|c: int, r: int|
                cols[0] <= c < cols[1] && rows[0] <= r < row + 1 implies #[trigger] cells@.contains(
                (c as i32, r as i32),
            ) by {
                if r < row {
                    assert(before.contains((c as i32, r as i32)));
                    let k = choose|k: int| 0 <= k < before.len() && #[trigger] before[k] == (c as i32, r as i32);
                    assert(cells@[k] == (c as i32, r as i32));
                }
            }
        }
        row = row + 1;
    }
    cells
}

/// A zone that spawns actors of `kind`. `switch` gates it: it spawns
/// nothing until that switch is active and refills only while it stays
/// active.
#[derive(Clone, Debug)]
pub struct ActorSpawnZone {
    pub switch_inverted: bool,
    pub carrier: CarrierId,
    pub level: u8,
    pub cols: [i32; 2],
    pub rows: [i32; 2],
    pub kind: String,
    pub count: u32,
    pub switch: Option<SwitchId>,
}

/// Whether level `level` of `grid` has cell `(col, row)`, with floor, and
/// that cell may be spawned on.
pub open spec fn immovable_cell(grid: CarrierGrid, level: int, col: int, row: int) -> bool {
    &&& 0 <= level < grid.levels@.len()
    &&& grid.levels@[level].cells.contains(row, col)
    &&& grid.levels@[level].cells.cell(row, col).has_floor
    &&& grid.levels@[level].cells.cell(row, col).spawnable()
}

/// The cells of `cells` that pass `immovable_cell`, in order.
pub open spec fn immovable_filter(cells: Seq<(i32, i32)>, grid: CarrierGrid, level: int) -> Seq<(i32, i32)>
    decreases cells.len(),
{
    if cells.len() == 0 {
        Seq::empty()
    } else {
        let rest = immovable_filter(cells.drop_last(), grid, level);
        let (c, r) = cells.last();
        if immovable_cell(grid, level, c as int, r as int) {
            rest.push(cells.last())
        } else {
            rest
        }
    }
}

impl ActorSpawnZone {
    /// Every cell of the zone, row by row.
    pub fn cells(&self) -> (cells: Vec<(i32, i32)>)
        ensures
            is_zone_listing(cells@, self.cols, self.rows),
    {
        zone_cells(self.cols, self.rows)
    }

    /// The zone's cells on this zone's level of `grid` that have floor and
    /// may be spawned on, in zone order.
    pub fn immovable_cells(&self, grid: &CarrierGrid) -> (cells: Vec<(i32, i32)>)
        ensures
            exists|all: Seq<(i32, i32)>|
                is_zone_listing(all, self.cols, self.rows) && cells@ == immovable_filter(
                    all,
                    *grid,
                    self.level as int,
                ),
    {
        let all = self.cells();
        let mut out: Vec<(i32, i32)> = Vec::new();
        let level = self.level as usize;
        let mut i: usize = 0;
        while i < all.len()
            invariant
                i <= all@.len(),
                level == self.level as usize,
                out@ == immovable_filter(all@.take(i as int), *grid, self.level as int),
            decreases all@.len() - i,
        {
            let (col, row) = all[i];
            assert(all@.take(i as int + 1).drop_last() == all@.take(i as int));
            let keep = if level < grid.levels.len() {
                let cells = &grid.levels[level].cells;
                if 0 <= row && (row as usize) < cells.rows.len() && 0 <= col && (col as usize)
                    < cells.rows[row as usize].len() {
                    let cell = cells.rows[row as usize][col as usize];
                    cell.has_floor && cell.is_spawnable()
                } else {
                    false
                }
            } else {
                false
            };
            if keep {
                out.push((col, row));
            }
            i = i + 1;
        }
        assert(all@.take(all@.len() as int) == all@);
        out
    }
}

/// A zone players spawn in.
#[derive(Clone, Debug)]
pub struct PlayerSpawnZone {
    pub carrier: CarrierId,
    pub level: u8,
    pub cols: [i32; 2],
    pub rows: [i32; 2],
}

impl PlayerSpawnZone {
    /// Every cell of the zone, row by row.
    pub fn cells(&self) -> (cells: Vec<(i32, i32)>)
        ensures
            is_zone_listing(cells@, self.cols, self.rows),
    {
        zone_cells(self.cols, self.rows)
    }
}

/// Map-authored item placement, with key kinds already resolved. The cell
/// is in its carrier's grid.
#[derive(Clone, Copy, Debug)]
pub struct PlacedItem {
    pub carrier: CarrierId,
    pub level: u8,
    pub col: i32,
    pub row: i32,
    pub item_type: ItemType,
}

/// Runtime form of a pressure plate, in grid space.
#[derive(Clone, Copy, Debug)]
pub struct PressurePlateRuntime {
    pub carrier: CarrierId,
    pub level: u8,
    pub col: i32,
    pub row: i32,
    pub switch: SwitchId,
}

/// The grid size of one map; world sizes are applied outside the library.
#[derive(Clone, Copy, Debug)]
pub struct GridGeometry {
    pub grid_cols: i32,
    pub grid_rows: i32,
}

/// One map's grid: its size and its cells and edges per level, in that
/// map's own frame.
#[derive(Clone, Debug)]
pub struct CarrierGrid {
    pub carrier: CarrierId,
    pub geometry: GridGeometry,
    pub levels: Vec<LevelGrid>,
}

impl CarrierGrid {
    pub fn new(carrier: CarrierId, geometry: GridGeometry, levels: Vec<LevelGrid>) -> (g: Self)
        ensures
            g.carrier == carrier,
            g.geometry == geometry,
            g.levels == levels,
    {
        CarrierGrid { carrier, geometry, levels }
    }
}

/// The grid data of the map being played and every map nested in it, plus
/// the flat lists that name their carrier.
#[derive(Clone, Debug)]
pub struct MapConfig {
    pub grids: Vec<CarrierGrid>,
    pub actor_spawn_zones: Vec<ActorSpawnZone>,
    pub player_spawn_zones: Vec<PlayerSpawnZone>,
    pub placed_items: Vec<PlacedItem>,
    pub pressure_plates: Vec<PressurePlateRuntime>,
}

/// A map's item catalog as played: every item type it offers.
#[derive(Clone, Debug)]
pub struct MapItems(pub Vec<ItemType>);

/// Strictly ascending in the item order, so no item twice.
pub open spec fn items_ascending(items: Seq<ItemType>) -> bool {
    forall|i: int, j: int| 0 <= i < j < items.len() ==> item_rank(#[trigger] items[i]) < item_rank(#[trigger] items[j])
}

/// Whether `item` is the type of a placed item or in the pool.
pub open spec fn offered(placed: Seq<PlacedItem>, pool: Seq<ItemType>, item: ItemType) -> bool {
    (exists|i: int| 0 <= i < placed.len() && (#[trigger] placed[i]).item_type == item) || pool.contains(item)
}

impl MapConfig {
    /// The root grid alone, with nothing placed.
    pub fn for_grid(levels: Vec<LevelGrid>, geometry: GridGeometry) -> (c: Self)
        ensures
            c.grids@.len() == 1,
            c.grids@[0].carrier.spec_is_world(),
            c.grids@[0].geometry == geometry,
            c.grids@[0].levels == levels,
            c.actor_spawn_zones@.len() == 0,
            c.player_spawn_zones@.len() == 0,
            c.placed_items@.len() == 0,
            c.pressure_plates@.len() == 0,
    {
        let mut grids: Vec<CarrierGrid> = Vec::new();
        grids.push(CarrierGrid::new(CarrierId::world(), geometry, levels));
        MapConfig {
            grids,
            actor_spawn_zones: Vec::new(),
            player_spawn_zones: Vec::new(),
            placed_items: Vec::new(),
            pressure_plates: Vec::new(),
        }
    }

    /// The world's grid, which comes first.
    pub fn root_grid(&self) -> (g: &CarrierGrid)
        requires
            self.grids@.len() > 0,
            self.grids@[0].carrier.spec_is_world(),
        ensures
            *g == self.grids@[0],
    {
        &self.grids[0]
    }

    /// The first grid of `carrier`.
    pub fn grid(&self, carrier: CarrierId) -> (g: &CarrierGrid)
        requires
            exists|i: int| 0 <= i < self.grids@.len() && (#[trigger] self.grids@[i]).carrier == carrier,
        ensures
            exists|i: int|
                0 <= i < self.grids@.len() && *g == self.grids@[i] && g.carrier == carrier && forall|j: int|
                    0 <= j < i ==> (#[trigger] self.grids@[j]).carrier != carrier,
    {
        let mut i: usize = 0;
        while i < self.grids.len()
            invariant
                i <= self.grids@.len(),
                forall|j: int| 0 <= j < i ==> (#[trigger] self.grids@[j]).carrier != carrier,
                exists|k: int| 0 <= k < self.grids@.len() && (#[trigger] self.grids@[k]).carrier == carrier,
            decreases self.grids@.len() - i,
        {
            if self.grids[i].carrier == carrier {
                return &self.grids[i];
            }
            i = i + 1;
        }
        proof {
            let k = choose|k: int| 0 <= k < self.grids@.len() && (#[trigger] self.grids@[k]).carrier == carrier;
            assert(self.grids@[k].carrier != carrier);
        }
        &self.grids[0]
    }

    /// Every item type the map offers, from its placed items and the random
    /// pool, each once and in ascending order.
    pub fn available_items(&self, random_pool: &[ItemType]) -> (items: MapItems)
        ensures
            items_ascending(items.0@),
            forall|item: ItemType|
                #![trigger items.0@.contains(item)]
                items.0@.contains(item) <==> offered(self.placed_items@, random_pool@, item),
    {
        let mut items: Vec<ItemType> = Vec::new();
        let mut i: usize = 0;
        while i < self.placed_items.len()
            invariant
                i <= self.placed_items@.len(),
                items_ascending(items@),
                forall|item: ItemType|
                    #![trigger items@.contains(item)]
                    items@.contains(item) <==> exists|k: int|
                        0 <= k < i && (#[trigger] self.placed_items@[k]).item_type == item,
            decreases self.placed_items@.len() - i,
        {
            let item = self.placed_items[i].item_type;
            let ghost prev = items@;
            insert_sorted(&mut items, item);
            proof {
                assert forall|x: ItemType|
                    #![trigger items@.contains(x)]
                    items@.contains(x) <==> exists|k: int|
                        0 <= k < i + 1 && (#[trigger] self.placed_items@[k]).item_type == x by {
                    if items@.contains(x) && x != item {
                        assert(prev.contains(x));
                    }
                    if x == item {
                        assert(self.placed_items@[i as int].item_type == x);
                    }
                    if exists|k: int| 0 <= k < i + 1 && (#[trigger] self.placed_items@[k]).item_type == x {
                        let k = choose|k: int|
                            0 <= k < i + 1 && (#[trigger] self.placed_items@[k]).item_type == x;
                        if k < i {
                            assert(prev.contains(x));
                        }
                    }
                }
            }
            i = i + 1;
        }
        let mut j: usize = 0;
        while j < random_pool.len()
            invariant
                j <= random_pool@.len(),
                items_ascending(items@),
                forall|item: ItemType|
                    #![trigger items@.contains(item)]
                    items@.contains(item) <==> ((exists|k: int|
                        0 <= k < self.placed_items@.len() && (#[trigger] self.placed_items@[k]).item_type
                            == item) || random_pool@.take(j as int).contains(item)),
            decreases random_pool@.len() - j,
        {
            let item = random_pool[j];
            let ghost prev = items@;
            insert_sorted(&mut items, item);
            proof {
                assert(random_pool@.take(j as int + 1) == random_pool@.take(j as int).push(item));
                assert forall|x: ItemType|
                    #![trigger items@.contains(x)]
                    items@.contains(x) <==> ((exists|k: int|
                        0 <= k < self.placed_items@.len() && (#[trigger] self.placed_items@[k]).item_type
                            == x) || random_pool@.take(j as int + 1).contains(x)) by {
                    if items@.contains(x) && x != item {
                        assert(prev.contains(x));
                    }
                    if random_pool@.take(j as int + 1).contains(x) && x != item {
                        let k = choose|k: int|
                            0 <= k < j + 1 && #[trigger] random_pool@.take(j as int + 1)[k] == x;
                        assert(random_pool@.take(j as int)[k] == x);
                        assert(random_pool@.take(j as int).contains(x));
                    }
                    if x == item {
                        assert(random_pool@.take(j as int + 1)[j as int] == x);
                    }
                }
            }
            j = j + 1;
        }
        proof {
            assert(random_pool@.take(random_pool@.len() as int) == random_pool@);
        }
        MapItems(items)
    }
}

/// Add `item` to an ascending list unless it is already there, keeping the
/// list ascending.
pub fn insert_sorted(items: &mut Vec<ItemType>, item: ItemType)
    requires
        items_ascending(old(items)@),
    ensures
        items_ascending(final(items)@),
        forall|x: ItemType|
            #![trigger final(items)@.contains(x)]
            final(items)@.contains(x) <==> (old(items)@.contains(x) || x == item),
{
    let key = item_rank_of(item);
    let mut i: usize = 0;
    while i < items.len()
        invariant
            i <= items@.len(),
            items@ == old(items)@,
            items_ascending(items@),
            key as int == item_rank(item),
            forall|k: int| 0 <= k < i ==> item_rank(#[trigger] items@[k]) < key,
        ensures
            i <= items@.len(),
            items@ == old(items)@,
            forall|k: int| 0 <= k < i ==> item_rank(#[trigger] items@[k]) < key,
            i < items@.len() ==> item_rank(items@[i as int]) > key,
        decreases items@.len() - i,
    {
        let here = item_rank_of(items[i]);
        if here == key {
            proof {
                crate::ids::lemma_item_rank_injective(items@[i as int], item);
                assert(items@[i as int] == item);
            }
            return;
        }
        if here > key {
            break;
        }
        i = i + 1;
    }
    let ghost prev = items@;
    items.insert(i, item);
    proof {
        assert forall|a: int, b: int| 0 <= a < b < items@.len() implies item_rank(#[trigger] items@[a])
            < item_rank(#[trigger] items@[b]) by {
            if b < i {
            } else if a < i && b == i {
            } else if a < i {
                assert(items@[b] == prev[b - 1]);
                if i < prev.len() {
                    assert(item_rank(prev[i as int]) > key);
                    assert(item_rank(prev[i as int]) <= item_rank(prev[b - 1]));
                }
            } else if a == i {
                assert(items@[b] == prev[b - 1]);
                assert(item_rank(prev[i as int]) > key);
                assert(item_rank(prev[i as int]) <= item_rank(prev[b - 1]));
            } else {
                assert(items@[a] == prev[a - 1]);
                assert(items@[b] == prev[b - 1]);
            }
        }
        assert forall|x: ItemType|
            #![trigger items@.contains(x)]
            items@.contains(x) <==> (prev.contains(x) || x == item) by {
            if items@.contains(x) {
                let k = choose|k: int| 0 <= k < items@.len() && items@[k] == x;
                if k < i {
                    assert(prev[k] == x);
                } else if k > i {
                    assert(prev[k - 1] == x);
                }
            }
            if prev.contains(x) {
                let k = choose|k: int| 0 <= k < prev.len() && prev[k] == x;
                if k < i {
                    assert(items@[k] == x);
                } else {
                    assert(items@[k + 1] == x);
                }
            }
            if x == item {
                assert(items@[i as int] == x);
            }
        }
    }
}

} // verus!
