use cuboid_map::barrier_merge::merge_barriers;
use cuboid_map::barriers::BarrierRun;
use cuboid_map::bridges::merge_light_bridges;
use cuboid_map::edges::CellSide;
use cuboid_map::floors::{FillerTrim, emit_floor_tier};
use cuboid_map::grid::{EdgeGrid, zone_cells};
use cuboid_map::ids::{BarrierKindId, BridgeKindId, SwitchId};
use cuboid_map::lighting::light_preset_from_str;
use cuboid_map::ramps::{RampDirection, ramp_spec_from_def};
use cuboid_map::schema::RampDef;
use cuboid_map::segments::{EndTrim, horizontal_wall_segment, vertical_wall_segment};
use cuboid_map::tables::NameTable;

fn run(edge: [i32; 4], kind: u16) -> BarrierRun {
    BarrierRun { switch: None, switch_inverted: false, edge, level: 0, levels: 1, kind: BarrierKindId(kind) }
}

#[test]
fn collinear_touching_barriers_of_one_kind_merge_into_one_run() {
    let merged = merge_barriers(vec![run([1, 0, 2, 0], 0), run([0, 0, 1, 0], 0), run([2, 0, 3, 0], 0)]);
    assert_eq!(merged.len(), 1);
    assert_eq!(merged[0].edge, [0, 0, 3, 0]);
}

#[test]
fn barriers_of_different_kinds_or_lines_stay_apart_in_kind_order() {
    let merged = merge_barriers(vec![run([0, 0, 1, 0], 1), run([1, 0, 2, 0], 0), run([0, 1, 1, 1], 1)]);
    assert_eq!(merged.len(), 3);
    let kinds: Vec<u16> = merged.iter().map(|r| r.kind.0).collect();
    assert_eq!(kinds, vec![0, 1, 1]);
}

#[test]
fn a_gap_splits_a_line_of_barriers() {
    let merged = merge_barriers(vec![run([0, 2, 0, 3], 0), run([0, 0, 0, 1], 0)]);
    let edges: Vec<[i32; 4]> = merged.iter().map(|r| r.edge).collect();
    assert_eq!(edges, vec![[0, 0, 0, 1], [0, 2, 0, 3]]);
}

#[test]
fn barriers_on_different_switches_do_not_merge() {
    let mut switched = run([1, 0, 2, 0], 0);
    switched.switch = Some(SwitchId(3));
    let merged = merge_barriers(vec![run([0, 0, 1, 0], 0), switched]);
    assert_eq!(merged.len(), 2);
}

#[test]
fn bridge_cells_merge_into_the_largest_rectangles() {
    let k = BridgeKindId(0);
    // An L of three cells: a 2x1 block and a single cell.
    let merged = merge_light_bridges(&[(0, 0, k), (1, 0, k), (0, 1, k)]);
    assert_eq!(merged.len(), 2);
    let area: i32 = merged.iter().map(|r| (r.c1 - r.c0) * (r.r1 - r.r0)).sum();
    assert_eq!(area, 3);
    assert_eq!((merged[0].c1 - merged[0].c0) * (merged[0].r1 - merged[0].r0), 2);
}

#[test]
fn bridge_kinds_never_share_a_rectangle() {
    let merged = merge_light_bridges(&[(0, 0, BridgeKindId(1)), (1, 0, BridgeKindId(0))]);
    assert_eq!(merged.len(), 2);
    assert_eq!(merged[0].kind, BridgeKindId(0));
    assert_eq!(merged[1].kind, BridgeKindId(1));
}

#[test]
fn a_lone_floor_slab_reaches_past_every_side() {
    let mask = vec![vec![false, false, false], vec![false, true, false], vec![false, false, false]];
    let plans = emit_floor_tier(&mask, &vec![], 3, 3);
    assert_eq!(plans.len(), 1);
    let p = plans[0];
    assert_eq!((p.row, p.col), (1, 1));
    assert!(p.extend_w && p.extend_e && p.extend_n && p.extend_s);
    assert_eq!(p.north_filler, None);
}

#[test]
fn a_diagonal_neighbour_gets_a_corner_filler_unless_a_ramp_arrives() {
    let mask = vec![vec![true, false], vec![false, true]];
    let plans = emit_floor_tier(&mask, &vec![], 2, 2);
    assert_eq!(plans.len(), 2);
    let lower = plans[1];
    assert_eq!((lower.row, lower.col), (1, 1));
    assert!(!lower.extend_n);
    assert_eq!(lower.north_filler, Some(FillerTrim { inset_w: true, inset_e: false }));
    let plans = emit_floor_tier(&mask, &vec![(1, 1)], 2, 2);
    assert_eq!(plans[1].north_filler, None);
}

#[test]
fn a_lone_wall_reaches_past_both_ends() {
    let mut edges = EdgeGrid::new(3, 3);
    edges.horizontal[1][1] = true;
    assert_eq!(horizontal_wall_segment(&edges, 1, 1, 3, 3), (EndTrim::Outset, EndTrim::Outset));
}

#[test]
fn a_wall_continuing_along_its_line_ends_flush() {
    let mut edges = EdgeGrid::new(3, 3);
    edges.horizontal[1][0] = true;
    edges.horizontal[1][1] = true;
    assert_eq!(horizontal_wall_segment(&edges, 1, 0, 3, 3), (EndTrim::Outset, EndTrim::Flush));
    assert_eq!(horizontal_wall_segment(&edges, 1, 1, 3, 3), (EndTrim::Flush, EndTrim::Outset));
}

#[test]
fn a_wall_meeting_a_wall_through_its_end_pulls_back() {
    let mut edges = EdgeGrid::new(3, 3);
    edges.horizontal[1][0] = true;
    edges.vertical[0][1] = true;
    edges.vertical[1][1] = true;
    assert_eq!(horizontal_wall_segment(&edges, 1, 0, 3, 3).1, EndTrim::Inset);
    assert_eq!(vertical_wall_segment(&edges, 0, 1, 3, 3).0, EndTrim::Outset);
}

#[test]
fn zone_cells_list_every_cell_row_by_row() {
    assert_eq!(zone_cells([1, 3], [0, 2]), vec![(1, 0), (2, 0), (1, 1), (2, 1)]);
    assert!(zone_cells([2, 2], [0, 2]).is_empty());
}

#[test]
fn a_ramp_rises_toward_its_high_end_along_its_longer_axis() {
    let spec = ramp_spec_from_def(&RampDef { low: [0, 0], high: [1, 2], lower_level: 1 });
    assert_eq!((spec.cols, spec.rows, spec.lower_level, spec.levels), ([0, 1], [0, 2], 1, 1));
    assert!(matches!(spec.direction, RampDirection::South));
    let spec = ramp_spec_from_def(&RampDef { low: [3, 1], high: [0, 0], lower_level: 0 });
    assert_eq!((spec.cols, spec.rows), ([0, 3], [0, 1]));
    assert!(matches!(spec.direction, RampDirection::West));
}

#[test]
fn a_ramp_lists_its_cells_row_by_row_and_its_sides_in_grid_order() {
    let spec = ramp_spec_from_def(&RampDef { low: [2, 1], high: [5, 3], lower_level: 0 });
    assert_eq!((spec.cols, spec.rows), ([2, 5], [1, 3]));
    assert_eq!(spec.footprint_cells(), vec![(1, 2), (1, 3), (1, 4), (2, 2), (2, 3), (2, 4)]);
    assert_eq!(spec.edge_cells(CellSide::North), vec![(1, 2), (1, 3), (1, 4)]);
    assert_eq!(spec.edge_cells(CellSide::South), vec![(2, 2), (2, 3), (2, 4)]);
    assert_eq!(spec.edge_cells(CellSide::West), vec![(1, 2), (2, 2)]);
    assert_eq!(spec.edge_cells(CellSide::East), vec![(1, 4), (2, 4)]);
}

#[test]
fn name_tables_number_ids_by_position_and_find_the_first() {
    let table = NameTable { ids: vec!["red".into(), "blue".into(), "red".into()] };
    assert_eq!(table.index_of(&"red".to_string()), Some(0));
    assert_eq!(table.index_of(&"blue".to_string()), Some(1));
    assert_eq!(table.index_of(&"green".to_string()), None);
    assert_eq!(table.id(1).map(String::as_str), Some("blue"));
    assert_eq!(table.id(3), None);
}

#[test]
fn light_presets_are_bright_dim_and_dark() {
    assert_eq!(light_preset_from_str("bright"), Some("bright"));
    assert_eq!(light_preset_from_str("dim"), Some("dim"));
    assert_eq!(light_preset_from_str("dark"), Some("dark"));
    assert_eq!(light_preset_from_str("dusk"), None);
    assert_eq!(light_preset_from_str(""), None);
}
