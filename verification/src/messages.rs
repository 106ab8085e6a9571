//! The text of a map error: what was rejected and where, each context
//! first and joined by `": "`.
use vstd::prelude::*;

use crate::error::{EdgeList, FloorList, MapError, RampEnd, SwitchUse, ZoneList};

verus! {

pub open spec fn digit(d: int) -> Seq<char> {
    if d == 0 {
        "0"@
    } else if d == 1 {
        "1"@
    } else if d == 2 {
        "2"@
    } else if d == 3 {
        "3"@
    } else if d == 4 {
        "4"@
    } else if d == 5 {
        "5"@
    } else if d == 6 {
        "6"@
    } else if d == 7 {
        "7"@
    } else if d == 8 {
        "8"@
    } else {
        "9"@
    }
}

/// A natural number in decimal.
pub open spec fn dec(n: nat) -> Seq<char>
    decreases n,
{
    if n < 10 {
        digit(n as int)
    } else {
        dec(n / 10) + digit((n % 10) as int)
    }
}

/// An integer in decimal, with a minus sign when negative.
pub open spec fn int_text(i: int) -> Seq<char> {
    if i < 0 {
        "-"@ + dec((-i) as nat)
    } else {
        dec(i as nat)
    }
}

/// `[a, b]`.
pub open spec fn pair_text(p: [i32; 2]) -> Seq<char> {
    "["@ + int_text(p[0] as int) + ", "@ + int_text(p[1] as int) + "]"@
}

/// `[a, b, c, d]`.
pub open spec fn quad_text(e: [i32; 4]) -> Seq<char> {
    "["@ + int_text(e[0] as int) + ", "@ + int_text(e[1] as int) + ", "@ + int_text(e[2] as int) + ", "@ + int_text(
        e[3] as int,
    ) + "]"@
}

/// A name in double quotes.
pub open spec fn quoted(s: Seq<char>) -> Seq<char> {
    "\""@ + s + "\""@
}

/// `level N`, followed by ` (name)` when the level has a non-empty name.
pub open spec fn level_text(level: nat, name: Option<String>) -> Seq<char> {
    "level "@ + dec(level) + match name {
        Some(n) => if n@.len() > 0 {
            " ("@ + n@ + ")"@
        } else {
            Seq::empty()
        },
        None => Seq::empty(),
    }
}

pub open spec fn zone_label(zone: ZoneList, index: nat) -> Seq<char> {
    match zone {
        ZoneList::Actor => "actor_spawn_zones["@ + dec(index) + "]"@,
        ZoneList::Player => "player_spawn_zones["@ + dec(index) + "]"@,
    }
}

pub open spec fn floor_list_name(list: FloorList) -> Seq<char> {
    match list {
        FloorList::Floors => "floors"@,
        FloorList::InaccessibleFloors => "inaccessible_floors"@,
        FloorList::Terrain => "terrain"@,
    }
}

pub open spec fn floor_word(list: FloorList) -> Seq<char> {
    match list {
        FloorList::Floors => "floor"@,
        FloorList::InaccessibleFloors => "inaccessible_floor"@,
        FloorList::Terrain => "terrain"@,
    }
}

pub open spec fn edge_list_name(list: EdgeList) -> Seq<char> {
    match list {
        EdgeList::Walls => "walls"@,
        EdgeList::Barriers => "barriers"@,
    }
}

pub open spec fn edge_word(list: EdgeList) -> Seq<char> {
    match list {
        EdgeList::Walls => "wall"@,
        EdgeList::Barriers => "barrier"@,
    }
}

pub open spec fn switch_place(place: SwitchUse, index: nat) -> Seq<char> {
    match place {
        SwitchUse::ActorSpawnZone => "actor_spawn_zones["@ + dec(index) + "]"@,
        SwitchUse::PressurePlate => "pressure_plates["@ + dec(index) + "]"@,
        SwitchUse::Barrier { level } => "level "@ + dec(level as nat) + " barriers["@ + dec(index) + "]"@,
        SwitchUse::LightBridge { level } => "level "@ + dec(level as nat) + " light_bridges["@ + dec(index) + "]"@,
        SwitchUse::NestedMap => "nested_maps["@ + dec(index) + "]"@,
    }
}

/// The text of an error.
pub open spec fn error_text(e: MapError) -> Seq<char> {
    match e {
        MapError::GridNotPositive => "grid_cols and grid_rows must be positive"@,
        MapError::NoLevels => "at least one level is required"@,
        MapError::NoPlayerSpawnZones => "at least one player_spawn_zones entry is required"@,
        MapError::ZoneLevelOutOfRange { zone, index, level, level_count } => zone_label(zone, index as nat) + " level "@
            + dec(level as nat) + " out of range (level count = "@ + dec(level_count as nat) + ")"@,
        MapError::ZoneEmpty { zone, index, cols, rows } => zone_label(zone, index as nat)
            + ": zone range must be non-empty (cols="@ + pair_text(cols) + ", rows="@ + pair_text(rows) + ")"@,
        MapError::ZoneOutOfBounds { zone, index, cols, rows, grid_cols, grid_rows } => zone_label(zone, index as nat)
            + ": zone range out of grid bounds "@ + int_text(grid_cols as int) + "x"@ + int_text(grid_rows as int)
            + " (cols="@ + pair_text(cols) + ", rows="@ + pair_text(rows) + ")"@,
        MapError::ZoneEmptyKind { index } => "actor_spawn_zones["@ + dec(index as nat) + "] has empty `kind`"@,
        MapError::LevelWithoutFloor { level, name } => level_text(level as nat, name) + ": at least one floor is required"@,
        MapError::FloorOutOfBounds { level, name, list, index, cell, grid_cols, grid_rows } => level_text(level as nat, name)
            + ": "@ + floor_list_name(list) + "["@ + dec(index as nat) + "]: floor "@ + pair_text(cell)
            + " out of grid bounds "@ + int_text(grid_cols as int) + "x"@ + int_text(grid_rows as int),
        MapError::DuplicateFloor { level, name, list, cell } => level_text(level as nat, name) + ": duplicate "@
            + floor_word(list) + " "@ + pair_text(cell),
        MapError::InaccessibleOverlapsFloor { level, name, cell } => level_text(level as nat, name)
            + ": inaccessible_floor "@ + pair_text(cell) + " overlaps a floor"@,
        MapError::TerrainOverlapsFloor { level, name, cell } => level_text(level as nat, name) + ": terrain "@
            + pair_text(cell) + " overlaps a floor"@,
        MapError::EdgePointOutOfBounds { level, name, list, index, point, grid_cols, grid_rows } => level_text(
            level as nat,
            name,
        ) + ": "@ + edge_list_name(list) + "["@ + dec(index as nat) + "]: grid point "@ + pair_text(point)
            + " out of grid-line bounds "@ + int_text(grid_cols as int) + "x"@ + int_text(grid_rows as int),
        MapError::EdgeNotOneGridEdge { level, name, list, index, edge } => level_text(level as nat, name) + ": "@
            + edge_list_name(list) + "["@ + dec(index as nat) + "]: wall "@ + quad_text(edge)
            + " must be exactly one grid edge"@,
        MapError::DuplicateEdge { level, name, list, edge } => level_text(level as nat, name) + ": duplicate "@ + edge_word(
            list,
        ) + " "@ + quad_text(edge),
        MapError::BarrierOverlapsWall { level, name, index, edge } => level_text(level as nat, name) + ": barriers["@
            + dec(index as nat) + "] "@ + quad_text(edge) + " overlaps a wall on the same edge"@,
        MapError::RampWithoutUpperLevel { index, lower_level, level_count } => "ramps["@ + dec(index as nat)
            + "]: lower_level "@ + dec(lower_level as nat) + " has no upper level (level count = "@ + dec(
            level_count as nat,
        ) + ")"@,
        MapError::RampPointOutOfBounds { index, end, point, grid_cols, grid_rows } => "ramps["@ + dec(index as nat) + "]: "@
            + match end {
            RampEnd::Low => "low"@,
            RampEnd::High => "high"@,
        } + ": grid point "@ + pair_text(point) + " out of grid-line bounds "@ + int_text(grid_cols as int) + "x"@
            + int_text(grid_rows as int),
        MapError::RampEmptyFootprint { index } => "ramps["@ + dec(index as nat)
            + "]: low/high must span a non-empty rectangular footprint"@,
        MapError::RampSquareFootprint { index } => "ramps["@ + dec(index as nat)
            + "]: ramp footprint must have one clear longer axis"@,
        MapError::DuplicateRamp { lower_level, low, high } => "duplicate ramp ("@ + dec(lower_level as nat) + ", "@
            + pair_text(low) + ", "@ + pair_text(high) + ")"@,
        MapError::UnknownBarrierKind { level, index, kind } => "level "@ + dec(level as nat) + " barriers["@ + dec(
            index as nat,
        ) + "]: unknown field "@ + quoted(kind@),
        MapError::UnknownBridgeKind { level, index, kind } => "level "@ + dec(level as nat) + " light_bridges["@ + dec(
            index as nat,
        ) + "]: unknown field "@ + quoted(kind@),
        MapError::UnknownSwitch { place, index, name } => switch_place(place, index as nat) + ": unknown switch "@ + quoted(
            name@,
        ),
        MapError::UnknownItemType { index, item_type } => "items["@ + dec(index as nat) + "] has unknown item type "@
            + quoted(item_type@),
        MapError::ItemNeedsFloor { index, item_type, level, col, row } => "items["@ + dec(index as nat) + "] ("@
            + item_type@ + ") at level "@ + dec(level as nat) + " col "@ + int_text(col as int) + " row "@ + int_text(
            row as int,
        ) + " needs a floor cell without a ramp"@,
        MapError::UnknownKeyKind { index, kind } => "items["@ + dec(index as nat) + "]: unknown field "@ + quoted(kind@),
        MapError::NestedMapPastLastStorey { map } => "nested map "@ + quoted(map@)
            + " reaches past the last storey a level tag can name"@,
    }
}

/// Append `n` in decimal.
pub fn push_dec(s: &mut String, n: u64)
    ensures
        final(s)@ == old(s)@ + dec(n as nat),
    decreases n,
{
    if n >= 10 {
        push_dec(s, n / 10);
    }
    let d = n % 10;
    let ghost before = s@;
    if d == 0 {
        s.append("0");
    } else if d == 1 {
        s.append("1");
    } else if d == 2 {
        s.append("2");
    } else if d == 3 {
        s.append("3");
    } else if d == 4 {
        s.append("4");
    } else if d == 5 {
        s.append("5");
    } else if d == 6 {
        s.append("6");
    } else if d == 7 {
        s.append("7");
    } else if d == 8 {
        s.append("8");
    } else {
        s.append("9");
    }
    proof {
        assert(s@ == before + digit(d as int));
        if n >= 10 {
            assert(dec(n as nat) == dec((n / 10) as nat) + digit((n % 10) as int));
            assert(old(s)@ + dec(n as nat) == (old(s)@ + dec((n / 10) as nat)) + digit(d as int));
        }
    }
}

/// Append `i` in decimal.
pub fn push_int(s: &mut String, i: i64)
    ensures
        final(s)@ == old(s)@ + int_text(i as int),
{
    if i < 0 {
        s.append("-");
        let ghost mid = s@;
        let magnitude: u64 = (-(i as i128)) as u64;
        push_dec(s, magnitude);
        proof {
            assert(old(s)@ + int_text(i as int) == (old(s)@ + "-"@) + dec((-i) as nat));
        }
    } else {
        push_dec(s, i as u64);
    }
}

fn push_pair(s: &mut String, p: [i32; 2])
    ensures
        final(s)@ == old(s)@ + pair_text(p),
{
    s.append("[");
    push_int(s, p[0] as i64);
    s.append(", ");
    push_int(s, p[1] as i64);
    s.append("]");
    proof {
        assert(final(s)@ =~= old(s)@ + pair_text(p));
    }
}

fn push_quad(s: &mut String, e: [i32; 4])
    ensures
        final(s)@ == old(s)@ + quad_text(e),
{
    s.append("[");
    push_int(s, e[0] as i64);
    s.append(", ");
    push_int(s, e[1] as i64);
    s.append(", ");
    push_int(s, e[2] as i64);
    s.append(", ");
    push_int(s, e[3] as i64);
    s.append("]");
    proof {
        assert(final(s)@ =~= old(s)@ + quad_text(e));
    }
}

fn push_quoted(s: &mut String, name: &String)
    ensures
        final(s)@ == old(s)@ + quoted(name@),
{
    s.append("\"");
    s.append(name.as_str());
    s.append("\"");
    proof {
        assert(final(s)@ =~= old(s)@ + quoted(name@));
    }
}

fn push_level(s: &mut String, level: usize, name: &Option<String>)
    ensures
        final(s)@ == old(s)@ + level_text(level as nat, *name),
{
    s.append("level ");
    push_dec(s, level as u64);
    match name {
        Some(n) => {
            if n.as_str().unicode_len() > 0 {
                s.append(" (");
                s.append(n.as_str());
                s.append(")");
            }
        },
        None => {},
    }
    proof {
        assert(final(s)@ =~= old(s)@ + level_text(level as nat, *name));
    }
}

fn push_zone_label(s: &mut String, zone: ZoneList, index: usize)
    ensures
        final(s)@ == old(s)@ + zone_label(zone, index as nat),
{
    match zone {
        ZoneList::Actor => s.append("actor_spawn_zones["),
        ZoneList::Player => s.append("player_spawn_zones["),
    }
    push_dec(s, index as u64);
    s.append("]");
    proof {
        assert(final(s)@ =~= old(s)@ + zone_label(zone, index as nat));
    }
}

fn push_switch_place(s: &mut String, place: SwitchUse, index: usize)
    ensures
        final(s)@ == old(s)@ + switch_place(place, index as nat),
{
    match place {
        SwitchUse::ActorSpawnZone => s.append("actor_spawn_zones["),
        SwitchUse::PressurePlate => s.append("pressure_plates["),
        SwitchUse::Barrier { level } => {
            s.append("level ");
            push_dec(s, level as u64);
            s.append(" barriers[");
        },
        SwitchUse::LightBridge { level } => {
            s.append("level ");
            push_dec(s, level as u64);
            s.append(" light_bridges[");
        },
        SwitchUse::NestedMap => s.append("nested_maps["),
    }
    push_dec(s, index as u64);
    s.append("]");
    proof {
        assert(final(s)@ =~= old(s)@ + switch_place(place, index as nat));
    }
}

fn push_grid_size(s: &mut String, grid_cols: i32, grid_rows: i32)
    ensures
        final(s)@ == old(s)@ + int_text(grid_cols as int) + "x"@ + int_text(grid_rows as int),
{
    push_int(s, grid_cols as i64);
    s.append("x");
    push_int(s, grid_rows as i64);
}

fn push_floor_list(s: &mut String, list: FloorList, name_form: bool)
    ensures
        final(s)@ == old(s)@ + (if name_form { floor_list_name(list) } else { floor_word(list) }),
{
    match list {
        FloorList::Floors => if name_form {
            s.append("floors")
        } else {
            s.append("floor")
        },
        FloorList::InaccessibleFloors => if name_form {
            s.append("inaccessible_floors")
        } else {
            s.append("inaccessible_floor")
        },
        FloorList::Terrain => s.append("terrain"),
    }
}

fn push_edge_list(s: &mut String, list: EdgeList, name_form: bool)
    ensures
        final(s)@ == old(s)@ + (if name_form { edge_list_name(list) } else { edge_word(list) }),
{
    match list {
        EdgeList::Walls => if name_form {
            s.append("walls")
        } else {
            s.append("wall")
        },
        EdgeList::Barriers => if name_form {
            s.append("barriers")
        } else {
            s.append("barrier")
        },
    }
}

impl MapError {
    /// The error's text: what was rejected and where.
    pub fn message(&self) -> (m: String)
        ensures
            m@ == error_text(*self),
    {
        let mut s = String::new();
        match self {
            MapError::GridNotPositive => s.append("grid_cols and grid_rows must be positive"),
            MapError::NoLevels => s.append("at least one level is required"),
            MapError::NoPlayerSpawnZones => s.append("at least one player_spawn_zones entry is required"),
            MapError::ZoneLevelOutOfRange { zone, index, level, level_count } => {
                push_zone_label(&mut s, *zone, *index);
                s.append(" level ");
                push_dec(&mut s, *level as u64);
                s.append(" out of range (level count = ");
                push_dec(&mut s, *level_count as u64);
                s.append(")");
            },
            MapError::ZoneEmpty { zone, index, cols, rows } => {
                push_zone_label(&mut s, *zone, *index);
                s.append(": zone range must be non-empty (cols=");
                push_pair(&mut s, *cols);
                s.append(", rows=");
                push_pair(&mut s, *rows);
                s.append(")");
            },
            MapError::ZoneOutOfBounds { zone, index, cols, rows, grid_cols, grid_rows } => {
                push_zone_label(&mut s, *zone, *index);
                s.append(": zone range out of grid bounds ");
                push_grid_size(&mut s, *grid_cols, *grid_rows);
                s.append(" (cols=");
                push_pair(&mut s, *cols);
                s.append(", rows=");
                push_pair(&mut s, *rows);
                s.append(")");
            },
            MapError::ZoneEmptyKind { index } => {
                s.append("actor_spawn_zones[");
                push_dec(&mut s, *index as u64);
                s.append("] has empty `kind`");
            },
            MapError::LevelWithoutFloor { level, name } => {
                push_level(&mut s, *level, name);
                s.append(": at least one floor is required");
            },
            MapError::FloorOutOfBounds { level, name, list, index, cell, grid_cols, grid_rows } => {
                push_level(&mut s, *level, name);
                s.append(": ");
                push_floor_list(&mut s, *list, true);
                s.append("[");
                push_dec(&mut s, *index as u64);
                s.append("]: floor ");
                push_pair(&mut s, *cell);
                s.append(" out of grid bounds ");
                push_grid_size(&mut s, *grid_cols, *grid_rows);
            },
            MapError::DuplicateFloor { level, name, list, cell } => {
                push_level(&mut s, *level, name);
                s.append(": duplicate ");
                push_floor_list(&mut s, *list, false);
                s.append(" ");
                push_pair(&mut s, *cell);
            },
            MapError::InaccessibleOverlapsFloor { level, name, cell } => {
                push_level(&mut s, *level, name);
                s.append(": inaccessible_floor ");
                push_pair(&mut s, *cell);
                s.append(" overlaps a floor");
            },
            MapError::TerrainOverlapsFloor { level, name, cell } => {
                push_level(&mut s, *level, name);
                s.append(": terrain ");
                push_pair(&mut s, *cell);
                s.append(" overlaps a floor");
            },
            MapError::EdgePointOutOfBounds { level, name, list, index, point, grid_cols, grid_rows } => {
                push_level(&mut s, *level, name);
                s.append(": ");
                push_edge_list(&mut s, *list, true);
                s.append("[");
                push_dec(&mut s, *index as u64);
                s.append("]: grid point ");
                push_pair(&mut s, *point);
                s.append(" out of grid-line bounds ");
                push_grid_size(&mut s, *grid_cols, *grid_rows);
            },
            MapError::EdgeNotOneGridEdge { level, name, list, index, edge } => {
                push_level(&mut s, *level, name);
                s.append(": ");
                push_edge_list(&mut s, *list, true);
                s.append("[");
                push_dec(&mut s, *index as u64);
                s.append("]: wall ");
                push_quad(&mut s, *edge);
                s.append(" must be exactly one grid edge");
            },
            MapError::DuplicateEdge { level, name, list, edge } => {
                push_level(&mut s, *level, name);
                s.append(": duplicate ");
                push_edge_list(&mut s, *list, false);
                s.append(" ");
                push_quad(&mut s, *edge);
            },
            MapError::BarrierOverlapsWall { level, name, index, edge } => {
                push_level(&mut s, *level, name);
                s.append(": barriers[");
                push_dec(&mut s, *index as u64);
                s.append("] ");
                push_quad(&mut s, *edge);
                s.append(" overlaps a wall on the same edge");
            },
            MapError::RampWithoutUpperLevel { index, lower_level, level_count } => {
                s.append("ramps[");
                push_dec(&mut s, *index as u64);
                s.append("]: lower_level ");
                push_dec(&mut s, *lower_level as u64);
                s.append(" has no upper level (level count = ");
                push_dec(&mut s, *level_count as u64);
                s.append(")");
            },
            MapError::RampPointOutOfBounds { index, end, point, grid_cols, grid_rows } => {
                s.append("ramps[");
                push_dec(&mut s, *index as u64);
                s.append("]: ");
                match end {
                    RampEnd::Low => s.append("low"),
                    RampEnd::High => s.append("high"),
                }
                s.append(": grid point ");
                push_pair(&mut s, *point);
                s.append(" out of grid-line bounds ");
                push_grid_size(&mut s, *grid_cols, *grid_rows);
            },
            MapError::RampEmptyFootprint { index } => {
                s.append("ramps[");
                push_dec(&mut s, *index as u64);
                s.append("]: low/high must span a non-empty rectangular footprint");
            },
            MapError::RampSquareFootprint { index } => {
                s.append("ramps[");
                push_dec(&mut s, *index as u64);
                s.append("]: ramp footprint must have one clear longer axis");
            },
            MapError::DuplicateRamp { lower_level, low, high } => {
                s.append("duplicate ramp (");
                push_dec(&mut s, *lower_level as u64);
                s.append(", ");
                push_pair(&mut s, *low);
                s.append(", ");
                push_pair(&mut s, *high);
                s.append(")");
            },
            MapError::UnknownBarrierKind { level, index, kind } => {
                s.append("level ");
                push_dec(&mut s, *level as u64);
                s.append(" barriers[");
                push_dec(&mut s, *index as u64);
                s.append("]: unknown field ");
                push_quoted(&mut s, kind);
            },
            MapError::UnknownBridgeKind { level, index, kind } => {
                s.append("level ");
                push_dec(&mut s, *level as u64);
                s.append(" light_bridges[");
                push_dec(&mut s, *index as u64);
                s.append("]: unknown field ");
                push_quoted(&mut s, kind);
            },
            MapError::UnknownSwitch { place, index, name } => {
                push_switch_place(&mut s, *place, *index);
                s.append(": unknown switch ");
                push_quoted(&mut s, name);
            },
            MapError::UnknownItemType { index, item_type } => {
                s.append("items[");
                push_dec(&mut s, *index as u64);
                s.append("] has unknown item type ");
                push_quoted(&mut s, item_type);
            },
            MapError::ItemNeedsFloor { index, item_type, level, col, row } => {
                s.append("items[");
                push_dec(&mut s, *index as u64);
                s.append("] (");
                s.append(item_type.as_str());
                s.append(") at level ");
                push_dec(&mut s, *level as u64);
                s.append(" col ");
                push_int(&mut s, *col as i64);
                s.append(" row ");
                push_int(&mut s, *row as i64);
                s.append(" needs a floor cell without a ramp");
            },
            MapError::UnknownKeyKind { index, kind } => {
                s.append("items[");
                push_dec(&mut s, *index as u64);
                s.append("]: unknown field ");
                push_quoted(&mut s, kind);
            },
            MapError::NestedMapPastLastStorey { map } => {
                s.append("nested map ");
                push_quoted(&mut s, map);
                s.append(" reaches past the last storey a level tag can name");
            },
        }
        proof {
            assert(s@ =~= error_text(*self));
        }
        s
    }
}

} // verus!
