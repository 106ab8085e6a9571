use cuboid_map::compile::{CompileScope, compile_grid_map};
use cuboid_map::error::{EdgeList, FloorList, MapError, RampEnd, SwitchUse, ZoneList};
use cuboid_map::ids::CarrierId;
use cuboid_map::schema::{
    ActorSpawnZoneDef, BarrierDef, CellDef, LevelDef, MapDef, PlayerSpawnZoneDef, PressurePlateDef, RampDef, WallDef,
};
use cuboid_map::tables::NameTable;
use cuboid_map::validation::{normalized_wall, validate_floor, validate_grid_point, validate_map};

fn cell(col: i32, row: i32) -> CellDef {
    CellDef { col, row }
}

fn level(floors: Vec<[i32; 2]>) -> LevelDef {
    level_with_inaccessible(floors, Vec::new())
}

fn level_with_inaccessible(floors: Vec<[i32; 2]>, inaccessible_floors: Vec<[i32; 2]>) -> LevelDef {
    LevelDef {
        name: None,
        floors: floors.into_iter().map(|[c, r]| cell(c, r)).collect(),
        inaccessible_floors: inaccessible_floors.into_iter().map(|[c, r]| cell(c, r)).collect(),
        terrain: Vec::new(),
        walls: Vec::new(),
        barriers: Vec::new(),
        light_bridges: Vec::new(),
        lights: Vec::new(),
    }
}

fn actor_zone(level: u32, col: i32, row: i32) -> ActorSpawnZoneDef {
    ActorSpawnZoneDef {
        level,
        cols: [col, col + 1],
        rows: [row, row + 1],
        kind: "actor".into(),
        count: 1,
        switch: None,
        switch_inverted: false,
    }
}

fn player_zone(level: u32, col: i32, row: i32) -> PlayerSpawnZoneDef {
    PlayerSpawnZoneDef { level, cols: [col, col + 1], rows: [row, row + 1] }
}

fn ramp(low: [i32; 2], high: [i32; 2], lower_level: u32) -> RampDef {
    RampDef { low, high, lower_level }
}

fn barrier(c0: i32, r0: i32, c1: i32, r1: i32, kind: &str) -> BarrierDef {
    BarrierDef { c0, r0, c1, r1, kind: kind.into(), switch: None, switch_inverted: false }
}

fn map_with_zones(
    grid: i32,
    levels: Vec<LevelDef>,
    actor_spawn_zones: Vec<ActorSpawnZoneDef>,
    player_spawn_zones: Vec<PlayerSpawnZoneDef>,
    ramps: Vec<RampDef>,
) -> MapDef {
    MapDef {
        grid_cols: grid,
        grid_rows: grid,
        actor_spawn_zones,
        player_spawn_zones,
        items: Vec::new(),
        pressure_plates: Vec::new(),
        levels,
        ramps,
        nested_maps: Vec::new(),
    }
}

fn simple_map() -> MapDef {
    map_with_zones(4, vec![level(vec![[0, 0]])], Vec::new(), vec![player_zone(0, 0, 0)], Vec::new())
}

#[test]
fn validation_accepts_actor_zone_without_floor() {
    let map_def = map_with_zones(
        4,
        vec![level(vec![[0, 0]]), level(vec![[1, 0]])],
        vec![actor_zone(1, 0, 0)],
        vec![player_zone(0, 0, 0)],
        Vec::new(),
    );
    validate_map(&map_def).expect("a zone over an empty cell should load");
}

#[test]
fn validation_accepts_actor_zone_on_higher_level_floor() {
    let map_def = map_with_zones(
        4,
        vec![level(vec![[1, 0]]), level(vec![[0, 0]])],
        vec![actor_zone(1, 0, 0)],
        vec![player_zone(0, 1, 0)],
        Vec::new(),
    );
    validate_map(&map_def).expect("zones should be allowed on any level floor");
}

#[test]
fn validation_accepts_actor_zone_overlapping_inaccessible_floor() {
    let map_def = map_with_zones(
        4,
        vec![level_with_inaccessible(vec![[0, 0]], vec![[1, 0]])],
        vec![actor_zone(0, 1, 0)],
        vec![player_zone(0, 0, 0)],
        Vec::new(),
    );
    validate_map(&map_def).expect("actor zone overlapping inaccessible floor should load");
}

#[test]
fn validation_accepts_player_zone_overlapping_inaccessible_floor() {
    let map_def = map_with_zones(
        4,
        vec![level_with_inaccessible(vec![[0, 0]], vec![[1, 0]])],
        Vec::new(),
        vec![player_zone(0, 1, 0)],
        Vec::new(),
    );
    validate_map(&map_def).expect("player zone overlapping inaccessible floor should load");
}

#[test]
fn inaccessible_floor_emits_physical_slab_but_not_regular_floor() {
    let map_def = map_with_zones(
        4,
        vec![level_with_inaccessible(vec![[0, 0]], vec![[2, 0]])],
        vec![actor_zone(0, 0, 0)],
        vec![player_zone(0, 0, 0)],
        Vec::new(),
    );
    validate_map(&map_def).expect("valid");
    let scope = CompileScope {
        kind_table: NameTable { ids: Vec::new() },
        bridge_table: NameTable { ids: Vec::new() },
        switch_table: NameTable { ids: Vec::new() },
        plated_switches: Vec::new(),
        item_catalog: NameTable { ids: Vec::new() },
    };
    let compiled = compile_grid_map(&map_def, &scope, CarrierId::world()).expect("compile");
    let inaccessible_cell = compiled.levels[0].cells.rows[0][2];
    assert!(!inaccessible_cell.has_floor);
    assert!(inaccessible_cell.has_floor_slab);
}

#[test]
fn validation_accepts_actor_zone_overlapping_ramp_footprint() {
    let map_def = map_with_zones(
        4,
        vec![level(vec![[3, 3]]), level(vec![[0, 0]]), level(vec![[3, 3]])],
        vec![actor_zone(1, 0, 0)],
        vec![player_zone(0, 3, 3)],
        vec![ramp([0, 0], [1, 2], 1)],
    );
    validate_map(&map_def).expect("actor zone overlapping ramp footprint should load");
}

#[test]
fn validation_accepts_player_zone_overlapping_ramp_footprint() {
    let map_def = map_with_zones(
        4,
        vec![level(vec![[3, 3]]), level(vec![[0, 0]]), level(vec![[3, 3]])],
        vec![],
        vec![player_zone(1, 0, 0)],
        vec![ramp([0, 0], [1, 2], 1)],
    );
    validate_map(&map_def).expect("player zone overlapping ramp footprint should load");
}

#[test]
fn validation_rejects_actor_zone_with_empty_kind() {
    let mut zone = actor_zone(0, 0, 0);
    zone.kind = String::new();
    let map_def = map_with_zones(4, vec![level(vec![[0, 0]])], vec![zone], vec![player_zone(0, 0, 0)], Vec::new());
    let err = validate_map(&map_def).expect_err("must reject empty `kind`");
    assert!(err.message().contains("empty `kind`"));
}

#[test]
fn validation_accepts_unknown_kind_strings() {
    let mut zone = actor_zone(0, 0, 0);
    zone.kind = "boss".into();
    let map_def = map_with_zones(4, vec![level(vec![[0, 0]])], vec![zone], vec![player_zone(0, 0, 0)], Vec::new());
    validate_map(&map_def).expect("any non-empty kind string should load");
}

#[test]
fn validation_accepts_empty_actor_spawn_zones() {
    validate_map(&simple_map()).expect("empty actor zones should be allowed");
}

#[test]
fn validation_accepts_barrier_on_empty_edge() {
    let mut map_def = simple_map();
    map_def.levels[0].barriers.push(barrier(0, 0, 1, 0, "red"));
    validate_map(&map_def).expect("barrier on an empty grid edge should load");
}

#[test]
fn validation_rejects_barrier_overlapping_wall() {
    let mut map_def = simple_map();
    map_def.levels[0].walls.push(WallDef { c0: 0, r0: 0, c1: 1, r1: 0 });
    map_def.levels[0].barriers.push(barrier(1, 0, 0, 0, "blue"));
    let err = validate_map(&map_def).expect_err("barrier on a wall edge must be rejected");
    let msg = err.message();
    assert!(msg.contains("overlaps a wall"), "got: {msg}");
    assert_eq!(msg, "level 0: barriers[0] [0, 0, 1, 0] overlaps a wall on the same edge");
}

#[test]
fn validation_rejects_duplicate_barrier() {
    let mut map_def = simple_map();
    map_def.levels[0].barriers.push(barrier(0, 0, 1, 0, "red"));
    map_def.levels[0].barriers.push(barrier(1, 0, 0, 0, "green"));
    let err = validate_map(&map_def).expect_err("duplicate barrier edge must be rejected");
    assert!(err.message().contains("duplicate barrier"));
}

#[test]
fn pressure_plate_barrier_is_open_for_pathfinding() {
    let mut map_def = simple_map();
    let mut red = barrier(1, 0, 1, 1, "red");
    red.switch = Some("red".into());
    let mut blue = barrier(2, 0, 2, 1, "blue");
    blue.switch = Some("blue".into());
    map_def.levels[0].barriers.push(red);
    map_def.levels[0].barriers.push(blue);
    map_def.pressure_plates.push(PressurePlateDef { level: 0, col: 0, row: 0, switch: "red".into() });
    validate_map(&map_def).expect("valid");
    let kinds = NameTable { ids: vec!["red".into(), "blue".into(), "green".into()] };
    let scope = CompileScope {
        kind_table: kinds.clone(),
        bridge_table: NameTable { ids: Vec::new() },
        switch_table: kinds,
        plated_switches: vec!["red".into()],
        item_catalog: NameTable { ids: Vec::new() },
    };
    let compiled = compile_grid_map(&map_def, &scope, CarrierId::world()).expect("compile");
    let barrier_edges = &compiled.levels[0].barrier_edges;
    assert!(!barrier_edges.vertical[0][1], "pressure-plate (red) barrier must be treated as open for nav");
    assert!(barrier_edges.vertical[0][2], "non-plate (blue) barrier must block nav");
}

#[test]
fn validation_reports_each_rule_in_order() {
    let mut map_def = simple_map();
    map_def.grid_cols = 0;
    assert!(matches!(validate_map(&map_def), Err(MapError::GridNotPositive)));

    let mut map_def = simple_map();
    map_def.levels.clear();
    assert!(matches!(validate_map(&map_def), Err(MapError::NoLevels)));

    let mut map_def = simple_map();
    map_def.player_spawn_zones.clear();
    let err = validate_map(&map_def).expect_err("no player zone");
    assert!(matches!(err, MapError::NoPlayerSpawnZones));
    assert_eq!(err.message(), "at least one player_spawn_zones entry is required");
}

#[test]
fn validation_names_the_zone_and_level_at_fault() {
    let mut map_def = simple_map();
    map_def.player_spawn_zones[0].level = 3;
    let err = validate_map(&map_def).expect_err("zone level out of range");
    assert!(matches!(err, MapError::ZoneLevelOutOfRange { zone: ZoneList::Player, index: 0, level: 3, level_count: 1 }));
    assert_eq!(err.message(), "player_spawn_zones[0] level 3 out of range (level count = 1)");

    let mut map_def = simple_map();
    map_def.player_spawn_zones[0].cols = [2, 2];
    let err = validate_map(&map_def).expect_err("empty zone");
    assert_eq!(err.message(), "player_spawn_zones[0]: zone range must be non-empty (cols=[2, 2], rows=[0, 1])");

    let mut map_def = simple_map();
    map_def.actor_spawn_zones.push(actor_zone(0, -1, 0));
    let err = validate_map(&map_def).expect_err("zone out of bounds");
    assert_eq!(err.message(), "actor_spawn_zones[0]: zone range out of grid bounds 4x4 (cols=[-1, 0], rows=[0, 1])");
}

#[test]
fn validation_rejects_bad_floors_with_the_level_label() {
    let mut map_def = simple_map();
    map_def.levels[0].name = Some("cellar".into());
    map_def.levels[0].floors.push(cell(4, 0));
    let err = validate_map(&map_def).expect_err("floor out of bounds");
    assert!(matches!(err, MapError::FloorOutOfBounds { list: FloorList::Floors, index: 1, .. }));
    assert_eq!(err.message(), "level 0 (cellar): floors[1]: floor [4, 0] out of grid bounds 4x4");

    let mut map_def = simple_map();
    map_def.levels[0].floors.push(cell(0, 0));
    assert_eq!(validate_map(&map_def).expect_err("dup").message(), "level 0: duplicate floor [0, 0]");

    let mut map_def = simple_map();
    map_def.levels[0].inaccessible_floors.push(cell(0, 0));
    assert_eq!(
        validate_map(&map_def).expect_err("overlap").message(),
        "level 0: inaccessible_floor [0, 0] overlaps a floor"
    );

    let mut map_def = simple_map();
    map_def.levels.push(level(vec![]));
    assert_eq!(validate_map(&map_def).expect_err("no floor").message(), "level 1: at least one floor is required");
}

#[test]
fn validation_rejects_bad_walls() {
    let mut map_def = simple_map();
    map_def.levels[0].walls.push(WallDef { c0: 0, r0: 0, c1: 1, r1: 1 });
    let err = validate_map(&map_def).expect_err("diagonal wall");
    assert!(matches!(err, MapError::EdgeNotOneGridEdge { list: EdgeList::Walls, index: 0, .. }));
    assert_eq!(err.message(), "level 0: walls[0]: wall [0, 0, 1, 1] must be exactly one grid edge");

    let mut map_def = simple_map();
    map_def.levels[0].walls.push(WallDef { c0: 4, r0: 0, c1: 5, r1: 0 });
    assert_eq!(
        validate_map(&map_def).expect_err("out of bounds").message(),
        "level 0: walls[0]: grid point [5, 0] out of grid-line bounds 4x4"
    );

    let mut map_def = simple_map();
    map_def.levels[0].walls.push(WallDef { c0: 0, r0: 1, c1: 0, r1: 0 });
    map_def.levels[0].walls.push(WallDef { c0: 0, r0: 0, c1: 0, r1: 1 });
    assert_eq!(validate_map(&map_def).expect_err("dup").message(), "level 0: duplicate wall [0, 0, 0, 1]");
}

#[test]
fn validation_rejects_bad_ramps() {
    let two_levels = || {
        map_with_zones(4, vec![level(vec![[0, 0]]), level(vec![[3, 3]])], Vec::new(), vec![player_zone(0, 0, 0)], Vec::new())
    };
    let mut map_def = two_levels();
    map_def.ramps.push(ramp([0, 0], [1, 2], 1));
    let err = validate_map(&map_def).expect_err("no upper level");
    assert_eq!(err.message(), "ramps[0]: lower_level 1 has no upper level (level count = 2)");

    let mut map_def = two_levels();
    map_def.ramps.push(ramp([0, 0], [1, 5], 0));
    let err = validate_map(&map_def).expect_err("out of bounds");
    assert!(matches!(err, MapError::RampPointOutOfBounds { end: RampEnd::High, .. }));
    assert_eq!(err.message(), "ramps[0]: high: grid point [1, 5] out of grid-line bounds 4x4");

    let mut map_def = two_levels();
    map_def.ramps.push(ramp([0, 0], [0, 2], 0));
    assert_eq!(
        validate_map(&map_def).expect_err("flat").message(),
        "ramps[0]: low/high must span a non-empty rectangular footprint"
    );

    let mut map_def = two_levels();
    map_def.ramps.push(ramp([0, 0], [2, 2], 0));
    assert_eq!(
        validate_map(&map_def).expect_err("square").message(),
        "ramps[0]: ramp footprint must have one clear longer axis"
    );

    let mut map_def = two_levels();
    map_def.ramps.push(ramp([0, 0], [1, 2], 0));
    map_def.ramps.push(ramp([0, 0], [1, 2], 0));
    assert_eq!(validate_map(&map_def).expect_err("dup").message(), "duplicate ramp (0, [0, 0], [1, 2])");
}

#[test]
fn unknown_switch_messages_name_where_the_switch_was_written() {
    let err = MapError::UnknownSwitch { place: SwitchUse::Barrier { level: 2 }, index: 3, name: "void".into() };
    assert_eq!(err.message(), "level 2 barriers[3]: unknown switch \"void\"");
    let err = MapError::ItemNeedsFloor { index: 0, item_type: "gold".into(), level: 1, col: -2, row: 13 };
    assert_eq!(err.message(), "items[0] (gold) at level 1 col -2 row 13 needs a floor cell without a ramp");
}

#[test]
fn grid_checks_accept_the_grid_and_its_lines() {
    assert!(validate_floor([3, 3], 4, 4));
    assert!(!validate_floor([4, 3], 4, 4));
    assert!(!validate_floor([0, -1], 4, 4));
    assert!(validate_grid_point([4, 4], 4, 4));
    assert!(!validate_grid_point([5, 4], 4, 4));
    assert_eq!(normalized_wall([1, 0, 0, 0]), [0, 0, 1, 0]);
    assert_eq!(normalized_wall([0, 1, 0, 0]), [0, 0, 0, 1]);
    assert_eq!(normalized_wall([0, 0, 1, 0]), [0, 0, 1, 0]);
}

#[test]
fn terrain_may_not_duplicate_an_inaccessible_floor() {
    let mut map_def = map_with_zones(
        4,
        vec![level_with_inaccessible(vec![[0, 0]], vec![[1, 0]])],
        Vec::new(),
        vec![player_zone(0, 0, 0)],
        Vec::new(),
    );
    map_def.levels[0].terrain.push(cell(1, 0));
    let error = validate_map(&map_def).expect_err("terrain must be its own slab");
    assert!(error.message().contains("overlaps a floor"), "{}", error.message());
    assert_eq!(error.message(), "level 0: terrain [1, 0] overlaps a floor");
}

#[test]
fn terrain_off_the_grid_is_rejected() {
    let mut map_def = simple_map();
    map_def.levels[0].terrain.push(cell(9, 0));
    let error = validate_map(&map_def).expect_err("terrain off the grid accepted");
    assert!(matches!(error, MapError::FloorOutOfBounds { list: FloorList::Terrain, index: 0, .. }));
}

#[test]
fn a_storey_error_comes_before_a_ramp_error() {
    let mut map_def = map_with_zones(
        4,
        vec![level(vec![[0, 0]]), level(Vec::new())],
        Vec::new(),
        vec![player_zone(0, 0, 0)],
        Vec::new(),
    );
    map_def.ramps.push(ramp([0, 0], [9, 9], 0));
    let error = validate_map(&map_def).expect_err("empty storey accepted");
    assert!(matches!(error, MapError::LevelWithoutFloor { level: 1, .. }), "{}", error.message());
}
