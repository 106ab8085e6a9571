use cuboid_map::compile::{CompileScope, CompiledMap, TerrainCell, compile_grid_map};
use cuboid_map::tree::{CarrierRecord, compile_into, compile_tree, tree_order};
use cuboid_map::error::{MapError, SwitchUse};
use cuboid_map::ids::{CarrierId, ItemType, SwitchId};
use cuboid_map::schema::{
    ActorSpawnZoneDef, BarrierDef, CellDef, ItemDef, LevelDef, LightBridgeDef, MapDef, NestedMapDef, PlayerSpawnZoneDef,
    PressurePlateDef, RampDef,
};
use cuboid_map::tables::NameTable;
use cuboid_map::validation::validate_map;

const FIREWORKS: &str = "fireworks";

fn table(ids: &[&str]) -> NameTable {
    NameTable { ids: ids.iter().map(|id| id.to_string()).collect() }
}

// One switch per barrier kind, named after it, plus `fireworks`.
fn scope_for(kinds: &[&str], bridges: &[&str], map: &MapDef) -> CompileScope {
    let mut switches: Vec<&str> = kinds.to_vec();
    switches.extend_from_slice(bridges);
    switches.push(FIREWORKS);
    CompileScope {
        kind_table: table(kinds),
        bridge_table: table(bridges),
        switch_table: table(&switches),
        plated_switches: map.pressure_plates.iter().map(|p| p.switch.clone()).collect(),
        item_catalog: table(&["cookie", "gold"]),
    }
}

fn compile(map: &MapDef, kinds: &[&str], bridges: &[&str]) -> Result<CompiledMap, MapError> {
    validate_map(map).expect("test map is valid");
    let scope = scope_for(kinds, bridges, map);
    compile_grid_map(map, &scope, CarrierId::world())
}

fn cell(col: i32, row: i32) -> CellDef {
    CellDef { col, row }
}

fn level(floors: Vec<[i32; 2]>) -> LevelDef {
    LevelDef {
        name: None,
        floors: floors.into_iter().map(|[c, r]| cell(c, r)).collect(),
        inaccessible_floors: Vec::new(),
        terrain: Vec::new(),
        walls: Vec::new(),
        barriers: Vec::new(),
        light_bridges: Vec::new(),
        lights: Vec::new(),
    }
}

fn barrier(c0: i32, r0: i32, c1: i32, r1: i32, kind: &str) -> BarrierDef {
    BarrierDef { c0, r0, c1, r1, kind: kind.into(), switch: None, switch_inverted: false }
}

fn bridge(col: i32, row: i32) -> LightBridgeDef {
    LightBridgeDef { col, row, kind: "skyway".into(), switch: None, switch_inverted: false }
}

fn actor_zone(level: u32, col: i32, row: i32) -> ActorSpawnZoneDef {
    ActorSpawnZoneDef {
        level,
        cols: [col, col + 1],
        rows: [row, row + 1],
        kind: "actor".into(),
        count: 1,
        switch: None,
        switch_inverted: false,
    }
}

fn plate(level: u32, col: i32, row: i32, switch: &str) -> PressurePlateDef {
    PressurePlateDef { level, col, row, switch: switch.into() }
}

fn item(level: u32, col: i32, row: i32, item_type: &str, kind: Option<&str>) -> ItemDef {
    ItemDef { level, col, row, item_type: item_type.into(), kind: kind.map(str::to_owned) }
}

// A ramp over `cols` x `rows` rising toward higher rows.
fn ramp_south(cols: [i32; 2], rows: [i32; 2], lower_level: u32) -> RampDef {
    RampDef { low: [cols[0], rows[0]], high: [cols[1], rows[1]], lower_level }
}

fn map_with_zones(
    grid: i32,
    levels: Vec<LevelDef>,
    actor_spawn_zones: Vec<ActorSpawnZoneDef>,
    ramps: Vec<RampDef>,
) -> MapDef {
    MapDef {
        grid_cols: grid,
        grid_rows: grid,
        actor_spawn_zones,
        player_spawn_zones: vec![PlayerSpawnZoneDef { level: 0, cols: [0, 1], rows: [0, 1] }],
        items: Vec::new(),
        pressure_plates: Vec::new(),
        levels,
        ramps,
        nested_maps: Vec::new(),
    }
}

fn map_with_bridges(cells: &[[i32; 2]]) -> MapDef {
    let mut map_def = map_with_zones(4, vec![level(vec![[0, 0]])], Vec::new(), Vec::new());
    map_def.levels[0].light_bridges = cells.iter().map(|[c, r]| bridge(*c, *r)).collect();
    map_def
}

#[test]
fn compile_stacked_barriers_compile_into_one_record_when_no_floor_splits_them() {
    let mut map_def = map_with_zones(4, vec![level(vec![[0, 0]]), level(vec![[2, 2]])], Vec::new(), Vec::new());
    for level in &mut map_def.levels {
        level.barriers.push(barrier(0, 0, 1, 0, "red"));
    }
    let compiled = compile(&map_def, &["red"], &[]).expect("compile");
    assert_eq!(compiled.barriers.len(), 1);
    assert_eq!(compiled.barriers[0].level, 0);
    assert_eq!(compiled.barriers[0].levels, 2);
}

#[test]
fn compile_a_floor_beside_the_upper_barrier_keeps_the_storeys_apart() {
    let mut map_def = map_with_zones(4, vec![level(vec![[0, 0]]), level(vec![[0, 0]])], Vec::new(), Vec::new());
    for level in &mut map_def.levels {
        level.barriers.push(barrier(0, 0, 1, 0, "red"));
    }
    let compiled = compile(&map_def, &["red"], &[]).expect("compile");
    assert_eq!(compiled.barriers.len(), 2);
    assert!(compiled.barriers.iter().all(|barrier| barrier.levels == 1));
}

#[test]
fn compile_resolves_switches_and_rejects_unknown_or_unplated_ones() {
    let kinds = ["red"];
    let mut map_def = map_with_zones(4, vec![level(vec![[0, 0], [1, 0]])], vec![actor_zone(0, 1, 0)], Vec::new());
    map_def.pressure_plates.push(plate(0, 0, 0, "red"));
    map_def.actor_spawn_zones[0].switch = Some("red".into());
    let compiled = compile(&map_def, &kinds, &[]).expect("switched zone map rejected");
    let switches = scope_for(&kinds, &[], &map_def).switch_table;
    let red = cuboid_map::ids::SwitchId(switches.index_of(&"red".to_string()).expect("red switch"));
    assert_eq!(compiled.pressure_plates[0].switch, red);
    assert_eq!(compiled.actor_spawn_zones[0].switch, Some(red));

    map_def.actor_spawn_zones[0].switch = Some("void".into());
    let err = compile(&map_def, &kinds, &[]).expect_err("unknown zone switch accepted");
    let chain = err.message();
    assert!(chain.contains("actor_spawn_zones[0]") && chain.contains("unknown switch"), "{chain}");

    map_def.actor_spawn_zones[0].switch = Some(FIREWORKS.into());
    let compiled = compile(&map_def, &kinds, &[]).expect("a zone on a switch with no plate yet rejected");
    let fireworks = cuboid_map::ids::SwitchId(switches.index_of(&FIREWORKS.to_string()).expect("fireworks switch"));
    assert_eq!(compiled.actor_spawn_zones[0].switch, Some(fireworks));

    map_def.actor_spawn_zones[0].switch = None;
    map_def.pressure_plates[0].switch = "void".into();
    let err = compile(&map_def, &kinds, &[]).expect_err("unknown plate switch accepted");
    let chain = err.message();
    assert!(chain.contains("pressure_plates[0]") && chain.contains("unknown switch"), "{chain}");
}

#[test]
fn compile_rejects_a_bridge_of_an_unknown_field() {
    let mut map_def = map_with_bridges(&[[1, 0]]);
    map_def.levels[0].light_bridges[0].kind = "magenta".into();

    let err = compile(&map_def, &[], &["skyway"]).expect_err("unknown bridge field must fail");
    let chain = err.message();
    assert!(chain.contains("unknown field"), "got: {chain}");
    assert!(chain.contains("light_bridges[0]"), "got: {chain}");
}

#[test]
fn compile_compile_rejects_unknown_barrier_kind() {
    let mut map_def = map_with_zones(4, vec![level(vec![[0, 0]])], Vec::new(), Vec::new());
    map_def.levels[0].barriers.push(barrier(0, 0, 1, 0, "magenta"));
    let err = compile(&map_def, &["red"], &[]).expect_err("unknown kind must fail");
    let chain = err.message();
    assert!(
        chain.to_lowercase().contains("magenta") || chain.to_lowercase().contains("unknown field"),
        "expected 'magenta' or 'unknown field' somewhere in chain; got: {chain}"
    );
}

#[test]
fn compile_compile_resolves_three_distinct_kinds() {
    let mut map_def = map_with_zones(4, vec![level(vec![[0, 0]])], Vec::new(), Vec::new());
    map_def.levels[0].barriers.push(barrier(0, 0, 1, 0, "red"));
    map_def.levels[0].barriers.push(barrier(1, 0, 2, 0, "blue"));
    map_def.levels[0].barriers.push(barrier(2, 0, 3, 0, "green"));
    let compiled = compile(&map_def, &["red", "blue", "green"], &[]).expect("compile");
    assert_eq!(compiled.barriers.len(), 3);
    let kinds: Vec<u16> = compiled.barriers.iter().map(|b| b.kind.0).collect();
    assert_eq!(kinds, vec![0, 1, 2]);
}

#[test]
fn terrain_does_not_require_exterior_grounds() {
    let mut map_def = map_with_zones(4, vec![level(vec![[3, 3]])], Vec::new(), Vec::new());
    map_def.levels[0].terrain.push(cell(0, 0));
    let compiled = compile(&map_def, &[], &[]).expect("standalone terrain failed to compile");
    assert_eq!(compiled.terrain.len(), 1);
    assert_eq!(compiled.terrain[0], TerrainCell { level: 0, col: 0, row: 0 });
    let cells = &compiled.levels[0].cells.rows;
    assert!(cells[0][0].has_floor && cells[0][0].has_floor_slab);
    let slabs = cells.iter().flatten().filter(|c| c.has_floor_slab).count();
    assert_eq!(slabs, 2);
}

#[test]
fn compiled_terrain_lists_each_storeys_cells_in_order() {
    let mut map_def = map_with_zones(4, vec![level(vec![[0, 0]]), level(Vec::new())], Vec::new(), Vec::new());
    map_def.levels[1].floors.push(cell(3, 3));
    map_def.levels[1].terrain.push(cell(1, 2));
    map_def.levels[0].terrain.push(cell(2, 0));
    let compiled = compile(&map_def, &[], &[]).expect("compile");
    assert_eq!(
        compiled.terrain,
        vec![TerrainCell { level: 0, col: 2, row: 0 }, TerrainCell { level: 1, col: 1, row: 2 }]
    );
    assert_eq!(compiled.carrier, CarrierId::world());
}

#[test]
fn a_ramp_landing_drops_the_corner_filler_over_its_high_edge() {
    // Floors at (0, 0) and (1, 1) on the upper storey: diagonal neighbours,
    // so each gets a corner filler on the side facing the other.
    let mut map_def = map_with_zones(
        4,
        vec![level(vec![[3, 3]]), level(vec![[0, 0], [1, 1]])],
        Vec::new(),
        Vec::new(),
    );
    let compiled = compile(&map_def, &[], &[]).expect("compile");
    let plans = &compiled.floor_plans[1];
    assert_eq!(plans.len(), 2);
    assert!(plans[0].south_filler.is_some());
    assert!(plans[1].north_filler.is_some());
    // A ramp from storey 0 rising north onto row 1 lands over edge (1, 1).
    map_def.ramps.push(RampDef { low: [1, 3], high: [2, 1], lower_level: 0 });
    let compiled = compile(&map_def, &[], &[]).expect("compile");
    let plans = &compiled.floor_plans[1];
    assert!(plans[0].south_filler.is_some(), "the edge under (0, 0) is (1, 0), not a landing");
    assert!(plans[1].north_filler.is_none(), "no filler over the landing edge (1, 1)");
    assert_eq!(plans[1].extend_w, plans[0].extend_w);
}

#[test]
fn nested_maps_compile_depth_first_each_on_its_own_carrier() {
    let child = |name: &str| NestedMapDef {
        map: name.into(),
        level: 0,
        from: [0, 0],
        to: [0, 0],
        to_level: None,
        switch: None,
        switch_inverted: false,
        travel_ticks: 1,
        pause_ticks: 0,
        phase_ticks: 0,
    };
    let mut root = map_with_zones(4, vec![level(vec![[0, 0]])], Vec::new(), Vec::new());
    root.nested_maps = vec![child("a"), child("b")];
    let mut a = map_with_zones(2, vec![level(vec![[1, 1]])], Vec::new(), Vec::new());
    a.nested_maps = vec![child("b")];
    let b = map_with_zones(3, vec![level(vec![[2, 2]])], Vec::new(), Vec::new());
    let nested = vec![a, b];
    let names = vec!["a".to_string(), "b".to_string()];
    let order = tree_order(&root, &nested, &names).expect("tree");
    let maps: Vec<usize> = order.iter().map(|n| n.map).collect();
    assert_eq!(maps, vec![0, 1, 2, 2]);
    let parents: Vec<(usize, usize)> = order.iter().map(|n| (n.parent, n.entry)).collect();
    assert_eq!(parents, vec![(0, 0), (0, 0), (1, 0), (0, 1)]);
    let scope = scope_for(&[], &[], &root);
    let (compiled, records) = compile_tree(&root, &nested, &order, &scope).expect("compile");
    let carriers: Vec<u16> = compiled.iter().map(|c| c.carrier.0).collect();
    assert_eq!(carriers, vec![0, 1, 2, 3]);
    let grids: Vec<usize> = compiled.iter().map(|c| c.levels[0].cells.rows.len()).collect();
    assert_eq!(grids, vec![4, 2, 3, 3]);
    let carrier_parents: Vec<u16> = records.iter().map(|c| c.parent.0).collect();
    assert_eq!(carrier_parents, vec![0, 1, 0]);
}

#[test]
fn a_carrier_records_its_motion_storeys_and_switch() {
    let mut root = map_with_zones(4, vec![level(vec![[0, 0]]), level(vec![[1, 1]]), level(vec![[2, 2]])], Vec::new(), Vec::new());
    root.nested_maps = vec![NestedMapDef {
        map: "lift".into(),
        level: 2,
        from: [0, 0],
        to: [0, 0],
        to_level: Some(0),
        switch: Some("fireworks".into()),
        switch_inverted: true,
        travel_ticks: 0,
        pause_ticks: 6,
        phase_ticks: 3,
    }];
    let lift = map_with_zones(1, vec![level(vec![[0, 0]])], Vec::new(), Vec::new());
    let nested = vec![lift];
    let order = tree_order(&root, &nested, &vec!["lift".to_string()]).expect("tree");
    let scope = scope_for(&[], &[], &root);
    let (_, carriers) = compile_tree(&root, &nested, &order, &scope).expect("compile");
    assert_eq!(
        carriers,
        vec![CarrierRecord {
            parent: CarrierId::world(),
            level: 0,
            levels: 2,
            travel_ticks: 1,
            pause_ticks: 6,
            phase_ticks: 3,
            switch: Some(SwitchId(0)),
            switch_inverted: true,
        }]
    );
}

#[test]
fn a_carrier_with_an_unknown_switch_is_rejected() {
    let mut root = map_with_zones(4, vec![level(vec![[0, 0]])], Vec::new(), Vec::new());
    root.nested_maps = vec![NestedMapDef {
        map: "lift".into(),
        level: 0,
        from: [0, 0],
        to: [1, 0],
        to_level: None,
        switch: Some("nowhere".into()),
        switch_inverted: false,
        travel_ticks: 1,
        pause_ticks: 0,
        phase_ticks: 0,
    }];
    let nested = vec![map_with_zones(1, vec![level(vec![[0, 0]])], Vec::new(), Vec::new())];
    let order = tree_order(&root, &nested, &vec!["lift".to_string()]).expect("tree");
    let scope = scope_for(&[], &[], &root);
    let err = compile_tree(&root, &nested, &order, &scope).expect_err("unknown carrier switch accepted");
    assert_eq!(err.message(), "nested_maps[0]: unknown switch \"nowhere\"");
}

#[test]
fn a_nested_map_reaching_past_the_last_storey_is_rejected() {
    let mut root = map_with_zones(4, vec![level(vec![[0, 0]])], Vec::new(), Vec::new());
    root.nested_maps = vec![NestedMapDef {
        map: "tower".into(),
        level: 0,
        from: [0, 0],
        to: [0, 0],
        to_level: Some(1),
        switch: None,
        switch_inverted: false,
        travel_ticks: 1,
        pause_ticks: 0,
        phase_ticks: 0,
    }];
    let tower = map_with_zones(1, (0..256).map(|_| level(vec![[0, 0]])).collect(), Vec::new(), Vec::new());
    let nested = vec![tower];
    let order = tree_order(&root, &nested, &vec!["tower".to_string()]).expect("tree");
    let scope = scope_for(&[], &[], &root);
    let err = compile_tree(&root, &nested, &order, &scope).expect_err("257 storeys accepted");
    assert!(matches!(err, MapError::NestedMapPastLastStorey { .. }));
}

#[test]
fn a_map_of_256_storeys_compiles() {
    let map_def = map_with_zones(2, (0..256).map(|_| level(vec![[0, 0]])).collect(), Vec::new(), Vec::new());
    let compiled = compile(&map_def, &[], &[]).expect("256 storeys");
    assert_eq!(compiled.levels.len(), 256);
    assert_eq!(compiled.terrain.len(), 0);
}

#[test]
fn an_unknown_actor_zone_switch_fails_after_the_layout_is_appended() {
    let mut map_def = map_with_zones(4, vec![level(vec![[0, 0]])], vec![actor_zone(0, 0, 0)], Vec::new());
    map_def.actor_spawn_zones[0].switch = Some("nowhere".into());
    map_def.items.push(item(0, 0, 0, "gold", None));
    let scope = scope_for(&[], &[], &map_def);
    let mut out = Vec::new();
    let err = compile_into(&map_def, &scope, CarrierId::world(), &mut out).expect_err("unknown zone switch accepted");
    assert!(matches!(err, MapError::UnknownSwitch { place: SwitchUse::ActorSpawnZone, .. }));
    assert_eq!(out.len(), 1);
    assert_eq!(out[0].levels.len(), 1);
    assert!(out[0].actor_spawn_zones.is_empty() && out[0].placed_items.is_empty());
    let mut plated = map_def.clone();
    plated.pressure_plates.push(plate(0, 0, 0, "nowhere"));
    let mut out = Vec::new();
    compile_into(&plated, &scope, CarrierId::world(), &mut out).expect_err("unknown plate switch accepted");
    assert!(out.is_empty());
}

#[test]
fn a_nested_map_with_no_geometry_has_no_tree_order() {
    let mut root = map_with_zones(4, vec![level(vec![[0, 0]])], Vec::new(), Vec::new());
    root.nested_maps = vec![NestedMapDef {
        map: "gone".into(),
        level: 0,
        from: [0, 0],
        to: [0, 0],
        to_level: None,
        switch: None,
        switch_inverted: false,
        travel_ticks: 1,
        pause_ticks: 0,
        phase_ticks: 0,
    }];
    assert_eq!(tree_order(&root, &Vec::new(), &Vec::new()), None);
}

#[test]
fn the_first_failing_map_of_the_tree_gives_the_error() {
    let child = NestedMapDef {
        map: "a".into(),
        level: 0,
        from: [0, 0],
        to: [0, 0],
        to_level: None,
        switch: None,
        switch_inverted: false,
        travel_ticks: 1,
        pause_ticks: 0,
        phase_ticks: 0,
    };
    let mut root = map_with_zones(4, vec![level(vec![[0, 0]])], Vec::new(), Vec::new());
    root.nested_maps = vec![child];
    let mut a = map_with_zones(2, vec![level(vec![[1, 1]])], Vec::new(), Vec::new());
    a.pressure_plates.push(plate(0, 1, 1, "nowhere"));
    let nested = vec![a];
    let order = tree_order(&root, &nested, &vec!["a".to_string()]).expect("tree");
    let scope = scope_for(&[], &[], &root);
    let err = compile_tree(&root, &nested, &order, &scope).expect_err("unknown switch accepted");
    assert!(matches!(err, MapError::UnknownSwitch { place: SwitchUse::PressurePlate, index: 0, .. }));
}

#[test]
fn compile_compile_rejects_item_on_floorless_cell() {
    let mut map_def = map_with_zones(4, vec![level(vec![[0, 0]])], Vec::new(), Vec::new());
    map_def.items.push(item(0, 2, 2, "gold", None));
    let err = compile(&map_def, &[], &[]).expect_err("item on a floorless cell must fail");
    assert!(err.message().contains("floor"));
}

#[test]
fn compile_compile_rejects_item_on_ramp_cell() {
    let mut map_def = map_with_zones(
        4,
        vec![level(vec![[3, 3]]), level(vec![[0, 0]]), level(vec![[3, 3]])],
        Vec::new(),
        vec![ramp_south([0, 1], [0, 2], 1)],
    );
    map_def.items.push(item(1, 0, 0, "gold", None));
    let err = compile(&map_def, &[], &[]).expect_err("item on a ramp cell must fail");
    assert!(err.message().contains("ramp"));
}

#[test]
fn compile_resolves_key_item_barrier_kind() {
    let mut map_def = map_with_zones(4, vec![level(vec![[0, 0]])], Vec::new(), Vec::new());
    map_def.items.push(item(0, 0, 0, "key", Some("red")));
    let compiled = compile(&map_def, &["red"], &[]).expect("compile");
    assert_eq!(compiled.placed_items.len(), 1);
    assert_eq!(compiled.placed_items[0].item_type, ItemType::Key(cuboid_map::ids::BarrierKindId(0)));
}

#[test]
fn compile_rejects_a_key_of_an_unknown_kind_and_an_unknown_item_type() {
    let mut map_def = map_with_zones(4, vec![level(vec![[0, 0]])], Vec::new(), Vec::new());
    map_def.items.push(item(0, 0, 0, "key", Some("magenta")));
    let err = compile(&map_def, &["red"], &[]).expect_err("unknown key kind accepted");
    assert_eq!(err.message(), "items[0]: unknown field \"magenta\"");

    map_def.items[0] = item(0, 0, 0, "anvil", None);
    let err = compile(&map_def, &["red"], &[]).expect_err("unknown item type accepted");
    assert_eq!(err.message(), "items[0] has unknown item type \"anvil\"");
}

#[test]
fn compile_places_a_catalog_item_on_its_floor() {
    let mut map_def = map_with_zones(4, vec![level(vec![[0, 0], [1, 1]])], Vec::new(), Vec::new());
    map_def.items.push(item(0, 1, 1, "gold", None));
    let compiled = compile(&map_def, &[], &[]).expect("compile");
    assert_eq!(compiled.placed_items.len(), 1);
    assert_eq!(compiled.placed_items[0].item_type, ItemType::Catalog(1));
    assert_eq!((compiled.placed_items[0].col, compiled.placed_items[0].row), (1, 1));
}

#[test]
fn compile_merges_light_bridge_cells_into_one_rectangle() {
    let mut map_def = map_with_bridges(&[[1, 0], [2, 0], [1, 1], [2, 1]]);
    map_def.levels[0].floors = vec![cell(0, 3)];
    let compiled = compile(&map_def, &[], &["skyway"]).expect("compile");
    assert_eq!(compiled.light_bridges[0].len(), 1, "a 2x2 block is one collider");
    let run = &compiled.light_bridges[0][0];
    assert_eq!(run.level, 0);
    assert_eq!((run.rect.c0, run.rect.r0, run.rect.c1, run.rect.r1), (1, 0, 3, 2));
}

#[test]
fn compile_places_a_plate_on_the_root_carrier() {
    let mut map_def = map_with_zones(4, vec![level(vec![[0, 0], [1, 0]])], Vec::new(), Vec::new());
    map_def.pressure_plates.push(plate(0, 1, 0, "red"));
    let compiled = compile(&map_def, &["red"], &[]).expect("compile");
    assert_eq!(compiled.pressure_plates.len(), 1);
    let p = compiled.pressure_plates[0];
    assert_eq!((p.carrier, p.level, p.col, p.row), (CarrierId(0), 0, 1, 0));
}

fn room_entry(from: [i32; 2], to: [i32; 2], travel_ticks: u32) -> NestedMapDef {
    NestedMapDef {
        map: "room".into(),
        level: 0,
        from,
        to,
        to_level: None,
        switch: None,
        switch_inverted: false,
        travel_ticks,
        pause_ticks: 0,
        phase_ticks: 0,
    }
}

// A leg of 1.5 s is 45 ticks at 30 Hz, whether the carrier moves one cell or
// four.
#[test]
fn tests_travel_time_sets_the_travel_ticks_whatever_the_distance() {
    let mut host = map_with_zones(8, vec![level(vec![[0, 0]])], Vec::new(), Vec::new());
    host.nested_maps = vec![room_entry([1, 3], [2, 3], 45), room_entry([1, 3], [5, 3], 45)];
    let room = map_with_zones(2, vec![level(vec![[0, 0]])], Vec::new(), Vec::new());
    let nested = vec![room];
    let order = tree_order(&host, &nested, &vec!["room".to_string()]).expect("tree");
    let scope = scope_for(&[], &[], &host);
    let (_, records) = compile_tree(&host, &nested, &order, &scope).expect("compile");
    assert_eq!(records[0].travel_ticks, 45);
    assert_eq!(records[1].travel_ticks, 45);
}
