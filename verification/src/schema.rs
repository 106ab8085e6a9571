use vstd::prelude::*;

verus! {

/// One authored cell: a floor, an inaccessible floor, or a terrain slab.
#[derive(Clone, Copy, Debug)]
pub struct CellDef {
    pub col: i32,
    pub row: i32,
}

/// One authored wall edge, `[c0, r0] -> [c1, r1]` in grid-line coordinates.
#[derive(Clone, Copy, Debug)]
pub struct WallDef {
    pub c0: i32,
    pub r0: i32,
    pub c1: i32,
    pub r1: i32,
}

/// One authored barrier edge. `kind` is looked up in the barrier kind table
/// and `switch`, when present, in the switch table at compile time.
#[derive(Clone, Debug)]
pub struct BarrierDef {
    pub c0: i32,
    pub r0: i32,
    pub c1: i32,
    pub r1: i32,
    pub kind: String,
    pub switch: Option<String>,
    pub switch_inverted: bool,
}

/// One cell of a light bridge. Same-kind cells merge into rectangles at
/// compile time, so authoring stays per cell like floors.
#[derive(Clone, Debug)]
pub struct LightBridgeDef {
    pub col: i32,
    pub row: i32,
    pub kind: String,
    pub switch: Option<String>,
    pub switch_inverted: bool,
}

/// The side of a cell a wall light or ladder hangs on.
#[derive(Clone, Copy, Debug, PartialEq, Eq, Structural)]
pub enum WallSide {
    North,
    South,
    East,
    West,
}

/// Editor-authored wall light: a `(cell, side)` pair on its level.
#[derive(Clone, Debug)]
pub struct WallLightDef {
    pub kind: String,
    pub col: i32,
    pub row: i32,
    pub side: WallSide,
}

/// One storey of a map.
#[derive(Clone, Debug)]
pub struct LevelDef {
    pub name: Option<String>,
    pub floors: Vec<CellDef>,
    pub inaccessible_floors: Vec<CellDef>,
    /// Floor slabs whose top uses the procedural terrain material; they are
    /// standable like floors.
    pub terrain: Vec<CellDef>,
    pub walls: Vec<WallDef>,
    pub barriers: Vec<BarrierDef>,
    pub light_bridges: Vec<LightBridgeDef>,
    pub lights: Vec<WallLightDef>,
}

/// A ramp from grid point `low` to grid point `high`, rising from
/// `lower_level` to the level above.
#[derive(Clone, Copy, Debug)]
pub struct RampDef {
    pub low: [i32; 2],
    pub high: [i32; 2],
    pub lower_level: u32,
}

/// A zone that spawns `count` actors of `kind`.
#[derive(Clone, Debug)]
pub struct ActorSpawnZoneDef {
    pub level: u32,
    pub cols: [i32; 2],
    pub rows: [i32; 2],
    pub kind: String,
    pub count: u32,
    pub switch: Option<String>,
    pub switch_inverted: bool,
}

/// A zone players spawn in.
#[derive(Clone, Copy, Debug)]
pub struct PlayerSpawnZoneDef {
    pub level: u32,
    pub cols: [i32; 2],
    pub rows: [i32; 2],
}

/// A single map-authored item. `item_type` names an entry of the item
/// catalog, or is `"key"` with `kind` naming a barrier kind.
#[derive(Clone, Debug)]
pub struct ItemDef {
    pub level: u32,
    pub col: i32,
    pub row: i32,
    pub item_type: String,
    pub kind: Option<String>,
}

/// A single-cell plate operating one of the map's switches by id.
#[derive(Clone, Debug)]
pub struct PressurePlateDef {
    pub level: u32,
    pub col: i32,
    pub row: i32,
    pub switch: String,
}

/// A nested map placed with its cell (0, 0) on the parent's `from` cell on
/// storey `level`, moving to `to` on `to_level` (the same storey when none)
/// while its switch, if it names one, is on (off when inverted). A leg takes
/// `travel_ticks`, it rests `pause_ticks` at each end, and its cycle is
/// offset by `phase_ticks`, all in server ticks.
#[derive(Clone, Debug)]
pub struct NestedMapDef {
    pub map: String,
    pub level: u32,
    pub from: [i32; 2],
    pub to: [i32; 2],
    pub to_level: Option<u32>,
    pub switch: Option<String>,
    pub switch_inverted: bool,
    pub travel_ticks: u32,
    pub pause_ticks: u32,
    pub phase_ticks: u32,
}

/// One map: its grid size, its storeys, and what is placed on them.
#[derive(Clone, Debug)]
pub struct MapDef {
    pub grid_cols: i32,
    pub grid_rows: i32,
    pub actor_spawn_zones: Vec<ActorSpawnZoneDef>,
    pub player_spawn_zones: Vec<PlayerSpawnZoneDef>,
    pub items: Vec<ItemDef>,
    pub pressure_plates: Vec<PressurePlateDef>,
    pub levels: Vec<LevelDef>,
    pub ramps: Vec<RampDef>,
    pub nested_maps: Vec<NestedMapDef>,
}

} // verus!
