use cuboid_map::canon::{canonical_list, canonicalize, text_precedes};
use cuboid_map::schema::{
    ActorSpawnZoneDef, CellDef, LevelDef, MapDef, PlayerSpawnZoneDef, RampDef, WallDef,
};

fn zone(level: u32, col: i32, kind: &str, count: u32, switch: Option<&str>) -> ActorSpawnZoneDef {
    ActorSpawnZoneDef {
        level,
        cols: [col, col + 1],
        rows: [0, 1],
        kind: kind.into(),
        count,
        switch: switch.map(str::to_owned),
        switch_inverted: false,
    }
}

fn map() -> MapDef {
    MapDef {
        grid_cols: 4,
        grid_rows: 4,
        actor_spawn_zones: Vec::new(),
        player_spawn_zones: Vec::new(),
        items: Vec::new(),
        pressure_plates: Vec::new(),
        levels: vec![LevelDef {
            name: Some("ground".into()),
            floors: vec![CellDef { col: 2, row: 1 }, CellDef { col: 0, row: 1 }, CellDef { col: 3, row: 0 }],
            inaccessible_floors: Vec::new(),
            terrain: vec![CellDef { col: 3, row: 3 }, CellDef { col: 1, row: 3 }],
            walls: vec![WallDef { c0: 1, r0: 0, c1: 0, r1: 0 }, WallDef { c0: 0, r0: 0, c1: 0, r1: 1 }],
            barriers: Vec::new(),
            light_bridges: Vec::new(),
            lights: Vec::new(),
        }],
        ramps: vec![
            RampDef { low: [0, 2], high: [1, 4], lower_level: 0 },
            RampDef { low: [0, 0], high: [2, 1], lower_level: 0 },
        ],
        nested_maps: Vec::new(),
    }
}

#[test]
fn canonical_floors_run_row_by_row_each_once() {
    let cells = vec![CellDef { col: 1, row: 1 }, CellDef { col: 0, row: 1 }, CellDef { col: 1, row: 1 }, CellDef { col: 5, row: 0 }];
    let out: Vec<(i32, i32)> = canonical_list(&cells).iter().map(|c| (c.col, c.row)).collect();
    assert_eq!(out, vec![(5, 0), (0, 1), (1, 1)]);
}

#[test]
fn canonicalize_sorts_floors_walls_and_ramps_and_keeps_terrain() {
    let mut m = map();
    canonicalize(&mut m);
    let floors: Vec<(i32, i32)> = m.levels[0].floors.iter().map(|c| (c.col, c.row)).collect();
    assert_eq!(floors, vec![(3, 0), (0, 1), (2, 1)]);
    let walls: Vec<[i32; 4]> = m.levels[0].walls.iter().map(|w| [w.c0, w.r0, w.c1, w.r1]).collect();
    assert_eq!(walls, vec![[0, 0, 0, 1], [0, 0, 1, 0]]);
    let ramps: Vec<[i32; 2]> = m.ramps.iter().map(|r| r.low).collect();
    assert_eq!(ramps, vec![[0, 0], [0, 2]]);
    let terrain: Vec<(i32, i32)> = m.levels[0].terrain.iter().map(|c| (c.col, c.row)).collect();
    assert_eq!(terrain, vec![(3, 3), (1, 3)], "terrain keeps its authored order");
    assert_eq!(m.levels[0].name.as_deref(), Some("ground"));
}

#[test]
fn canonicalize_merges_repeated_player_zones() {
    let mut m = map();
    let z = PlayerSpawnZoneDef { level: 0, cols: [1, 2], rows: [0, 1] };
    let first = PlayerSpawnZoneDef { level: 0, cols: [0, 1], rows: [0, 1] };
    m.player_spawn_zones = vec![z, first, z];
    canonicalize(&mut m);
    let cols: Vec<[i32; 2]> = m.player_spawn_zones.iter().map(|z| z.cols).collect();
    assert_eq!(cols, vec![[0, 1], [1, 2]]);
}

#[test]
fn canonicalize_sorts_actor_zones_stably_and_cuts_repeats() {
    let mut m = map();
    m.actor_spawn_zones = vec![
        zone(0, 2, "guard", 1, None),
        zone(0, 0, "guard", 1, Some("guards")),
        zone(0, 0, "guard", 1, Some("guards")),
        zone(0, 0, "bat", 1, None),
        zone(0, 0, "guard", 1, None),
    ];
    canonicalize(&mut m);
    let out: Vec<(i32, &str, Option<&str>)> = m
        .actor_spawn_zones
        .iter()
        .map(|z| (z.cols[0], z.kind.as_str(), z.switch.as_deref()))
        .collect();
    assert_eq!(
        out,
        vec![(0, "bat", None), (0, "guard", Some("guards")), (0, "guard", None), (2, "guard", None)]
    );
}

#[test]
fn canonicalizing_a_canonical_map_again_changes_nothing() {
    let mut m = map();
    m.levels[0].floors.push(CellDef { col: 2, row: 1 });
    m.levels[0].walls.push(WallDef { c0: 0, r0: 1, c1: 0, r1: 0 });
    m.player_spawn_zones = vec![
        PlayerSpawnZoneDef { level: 0, cols: [1, 2], rows: [0, 1] },
        PlayerSpawnZoneDef { level: 0, cols: [0, 1], rows: [0, 1] },
    ];
    m.actor_spawn_zones = vec![zone(0, 1, "guard", 2, None), zone(0, 1, "guard", 2, None), zone(0, 0, "bat", 1, None)];
    canonicalize(&mut m);
    let once = format!("{m:?}");
    canonicalize(&mut m);
    assert_eq!(format!("{m:?}"), once);
    assert_eq!(m.levels[0].floors.len(), 3);
    assert_eq!(m.levels[0].walls.len(), 2);
    assert_eq!(m.actor_spawn_zones.len(), 2);
}

#[test]
fn canonical_text_order_puts_a_prefix_first() {
    assert!(text_precedes("ab", "abc"));
    assert!(!text_precedes("abc", "ab"));
    assert!(text_precedes("abc", "abd"));
    assert!(!text_precedes("same", "same"));
    assert!(text_precedes("", "a"));
    assert!(text_precedes("Z", "a"));
}
