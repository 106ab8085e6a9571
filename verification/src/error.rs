use vstd::prelude::*;

verus! {

/// Which zone list a zone error refers to.
#[derive(Clone, Copy, Debug, PartialEq, Eq, Structural)]
pub enum ZoneList {
    Actor,
    Player,
}

/// Which cell list of a level a floor error refers to.
#[derive(Clone, Copy, Debug, PartialEq, Eq, Structural)]
pub enum FloorList {
    Floors,
    InaccessibleFloors,
    Terrain,
}

/// Which edge list of a level an edge error refers to.
#[derive(Clone, Copy, Debug, PartialEq, Eq, Structural)]
pub enum EdgeList {
    Walls,
    Barriers,
}

/// Which end of a ramp a ramp error refers to.
#[derive(Clone, Copy, Debug, PartialEq, Eq, Structural)]
pub enum RampEnd {
    Low,
    High,
}

/// Where a switch name that failed to resolve was written.
#[derive(Clone, Copy, Debug, PartialEq, Eq, Structural)]
pub enum SwitchUse {
    ActorSpawnZone,
    PressurePlate,
    Barrier { level: usize },
    LightBridge { level: usize },
    NestedMap,
}

/// Why a map was rejected. Indexes count from 0 in the authored lists.
#[derive(Clone, Debug)]
pub enum MapError {
    GridNotPositive,
    NoLevels,
    NoPlayerSpawnZones,
    ZoneLevelOutOfRange { zone: ZoneList, index: usize, level: u32, level_count: usize },
    ZoneEmpty { zone: ZoneList, index: usize, cols: [i32; 2], rows: [i32; 2] },
    ZoneOutOfBounds {
        zone: ZoneList,
        index: usize,
        cols: [i32; 2],
        rows: [i32; 2],
        grid_cols: i32,
        grid_rows: i32,
    },
    ZoneEmptyKind { index: usize },
    LevelWithoutFloor { level: usize, name: Option<String> },
    FloorOutOfBounds {
        level: usize,
        name: Option<String>,
        list: FloorList,
        index: usize,
        cell: [i32; 2],
        grid_cols: i32,
        grid_rows: i32,
    },
    DuplicateFloor { level: usize, name: Option<String>, list: FloorList, cell: [i32; 2] },
    InaccessibleOverlapsFloor { level: usize, name: Option<String>, cell: [i32; 2] },
    TerrainOverlapsFloor { level: usize, name: Option<String>, cell: [i32; 2] },
    EdgePointOutOfBounds {
        level: usize,
        name: Option<String>,
        list: EdgeList,
        index: usize,
        point: [i32; 2],
        grid_cols: i32,
        grid_rows: i32,
    },
    EdgeNotOneGridEdge { level: usize, name: Option<String>, list: EdgeList, index: usize, edge: [i32; 4] },
    DuplicateEdge { level: usize, name: Option<String>, list: EdgeList, edge: [i32; 4] },
    BarrierOverlapsWall { level: usize, name: Option<String>, index: usize, edge: [i32; 4] },
    RampWithoutUpperLevel { index: usize, lower_level: u32, level_count: usize },
    RampPointOutOfBounds { index: usize, end: RampEnd, point: [i32; 2], grid_cols: i32, grid_rows: i32 },
    RampEmptyFootprint { index: usize },
    RampSquareFootprint { index: usize },
    DuplicateRamp { lower_level: u32, low: [i32; 2], high: [i32; 2] },
    UnknownBarrierKind { level: usize, index: usize, kind: String },
    UnknownBridgeKind { level: usize, index: usize, kind: String },
    UnknownSwitch { place: SwitchUse, index: usize, name: String },
    UnknownItemType { index: usize, item_type: String },
    ItemNeedsFloor { index: usize, item_type: String, level: u32, col: i32, row: i32 },
    UnknownKeyKind { index: usize, kind: String },
    NestedMapPastLastStorey { map: String },
}

} // verus!
