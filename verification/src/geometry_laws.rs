//! What holds of the grid geometry for every input: how a floor cell's slab
//! answers its neighbours, how wall ends answer the walls at their grid
//! points, which cells an edge separates, where a wall light hangs, and
//! which carrier a switch runs.
use vstd::prelude::*;

use crate::floors::{FillerTrim, SlabPlan, in_mask, row_plans, slab_plan, tier_plans};
use crate::barriers::{GridEdge, spec_cells_beside};
use crate::compile::light_picks;
use crate::edges::{CellSide, edge_on_side};
use crate::grid::{EdgeGrid, LevelGrid};
use crate::ids::CarrierId;
use crate::pressure_switches::wired_carriers;
use crate::schema::{WallLightDef, WallSide};
use crate::tree::CarrierRecord;
use crate::segments::{EndTrim, h_edge_ok, horizontal_trims, v_edge_ok, vertical_trims};

verus! {

/// The plan of a floor cell answers its eight neighbours: a side reaches past
/// its grid line exactly when no floor lies across it (north and south also
/// when no floor lies diagonally on that side), and a corner filler closes the
/// gap on a side that holds back for a diagonal floor only, trimmed at the
/// end where that diagonal floor is, unless a ramp lands over that edge.
pub open spec fn plan_answers_neighbours(mask: Seq<Vec<bool>>, skip: Seq<(i32, i32)>, grid_cols: int, grid_rows: int, p: SlabPlan) -> bool {
    let r = p.row as int;
    let c = p.col as int;
    let n = in_mask(mask, grid_cols, grid_rows, r - 1, c);
    let s = in_mask(mask, grid_cols, grid_rows, r + 1, c);
    let nw = in_mask(mask, grid_cols, grid_rows, r - 1, c - 1);
    let ne = in_mask(mask, grid_cols, grid_rows, r - 1, c + 1);
    let sw = in_mask(mask, grid_cols, grid_rows, r + 1, c - 1);
    let se = in_mask(mask, grid_cols, grid_rows, r + 1, c + 1);
    &&& in_mask(mask, grid_cols, grid_rows, r, c)
    &&& p.extend_w == !in_mask(mask, grid_cols, grid_rows, r, c - 1)
    &&& p.extend_e == !in_mask(mask, grid_cols, grid_rows, r, c + 1)
    &&& p.extend_n == !(n || nw || ne)
    &&& p.extend_s == !(s || sw || se)
    &&& (p.north_filler is Some <==> !n && (nw || ne) && !skip.contains((p.row, p.col)))
    &&& (p.north_filler matches Some(t) ==> t.inset_w == nw && t.inset_e == ne)
    &&& (p.south_filler is Some <==> !s && (sw || se) && !skip.contains(((r + 1) as i32, p.col)))
    &&& (p.south_filler matches Some(t) ==> t.inset_w == sw && t.inset_e == se)
}

proof fn lemma_slab_plan_answers(mask: Seq<Vec<bool>>, skip: Seq<(i32, i32)>, grid_cols: int, grid_rows: int, r: int, c: int)
    requires
        0 <= r < grid_rows <= i32::MAX,
        0 <= c < grid_cols <= i32::MAX,
        in_mask(mask, grid_cols, grid_rows, r, c),
    ensures
        plan_answers_neighbours(mask, skip, grid_cols, grid_rows, slab_plan(mask, skip, grid_cols, grid_rows, r, c)),
        slab_plan(mask, skip, grid_cols, grid_rows, r, c).row == r,
        slab_plan(mask, skip, grid_cols, grid_rows, r, c).col == c,
{
}

proof fn lemma_row_plans_answer(mask: Seq<Vec<bool>>, skip: Seq<(i32, i32)>, grid_cols: int, grid_rows: int, r: int, c: int)
    requires
        0 <= r < grid_rows <= i32::MAX,
        c <= grid_cols <= i32::MAX,
    ensures
        forall|i: int|
            0 <= i < row_plans(mask, skip, grid_cols, grid_rows, r, c).len() ==> {
                let p = #[trigger] row_plans(mask, skip, grid_cols, grid_rows, r, c)[i];
                &&& plan_answers_neighbours(mask, skip, grid_cols, grid_rows, p)
                &&& p.row == r
                &&& 0 <= p.col < c
            },
    decreases c,
{
    if c > 0 {
        lemma_row_plans_answer(mask, skip, grid_cols, grid_rows, r, c - 1);
        if in_mask(mask, grid_cols, grid_rows, r, c - 1) {
            lemma_slab_plan_answers(mask, skip, grid_cols, grid_rows, r, c - 1);
        }
        let rest = row_plans(mask, skip, grid_cols, grid_rows, r, c - 1);
        let all = row_plans(mask, skip, grid_cols, grid_rows, r, c);
        assert forall|i: int| 0 <= i < all.len() implies {
            let p = #[trigger] all[i];
            &&& plan_answers_neighbours(mask, skip, grid_cols, grid_rows, p)
            &&& p.row == r
            &&& 0 <= p.col < c
        } by {
            if i < rest.len() {
                assert(all[i] == rest[i]);
            }
        }
    }
}

proof fn lemma_tier_plans_answer(mask: Seq<Vec<bool>>, skip: Seq<(i32, i32)>, grid_cols: int, grid_rows: int, r: int)
    requires
        0 <= grid_cols <= i32::MAX,
        r <= grid_rows <= i32::MAX,
    ensures
        forall|i: int|
            0 <= i < tier_plans(mask, skip, grid_cols, grid_rows, r).len() ==> {
                let p = #[trigger] tier_plans(mask, skip, grid_cols, grid_rows, r)[i];
                &&& plan_answers_neighbours(mask, skip, grid_cols, grid_rows, p)
                &&& 0 <= p.row < r
                &&& 0 <= p.col < grid_cols
            },
    decreases r,
{
    if r > 0 {
        lemma_tier_plans_answer(mask, skip, grid_cols, grid_rows, r - 1);
        lemma_row_plans_answer(mask, skip, grid_cols, grid_rows, r - 1, grid_cols);
        let a = tier_plans(mask, skip, grid_cols, grid_rows, r - 1);
        let b = row_plans(mask, skip, grid_cols, grid_rows, r - 1, grid_cols);
        let all = tier_plans(mask, skip, grid_cols, grid_rows, r);
        assert(all == a + b);
        assert forall|i: int| 0 <= i < all.len() implies {
            let p = #[trigger] all[i];
            &&& plan_answers_neighbours(mask, skip, grid_cols, grid_rows, p)
            &&& 0 <= p.row < r
            &&& 0 <= p.col < grid_cols
        } by {
            if i < a.len() {
                assert(all[i] == a[i]);
            } else {
                assert(all[i] == b[i - a.len()]);
            }
        }
    }
}

/// Every slab a floor tier plans is on a floor cell of the grid and answers
/// its neighbours (`plan_answers_neighbours`): the north side of a cell
/// holds back for a floor north-west or north-east of it just as the south
/// side does for one south-west or south-east.
pub proof fn law_floor_plans_answer_neighbours(mask: Seq<Vec<bool>>, skip: Seq<(i32, i32)>, grid_cols: int, grid_rows: int)
    requires
        0 <= grid_cols <= i32::MAX,
        0 <= grid_rows <= i32::MAX,
    ensures
        forall|i: int|
            0 <= i < tier_plans(mask, skip, grid_cols, grid_rows, grid_rows).len() ==> {
                let p = #[trigger] tier_plans(mask, skip, grid_cols, grid_rows, grid_rows)[i];
                &&& plan_answers_neighbours(mask, skip, grid_cols, grid_rows, p)
                &&& 0 <= p.row < grid_rows
                &&& 0 <= p.col < grid_cols
            },
{
    lemma_tier_plans_answer(mask, skip, grid_cols, grid_rows, grid_rows);
}

/// Two masks, and two sets of landing edges, that are mirror images east
/// to west across a grid `grid_cols` wide.
pub open spec fn mirrored_floors(
    mask: Seq<Vec<bool>>,
    skip: Seq<(i32, i32)>,
    mirror: Seq<Vec<bool>>,
    mirror_skip: Seq<(i32, i32)>,
    grid_cols: int,
    grid_rows: int,
) -> bool {
    &&& forall|r: int, c: int|
        #[trigger] in_mask(mirror, grid_cols, grid_rows, r, c) == in_mask(mask, grid_cols, grid_rows, r, grid_cols - 1 - c)
    &&& forall|r: i32, c: i32|
        0 <= c < grid_cols ==> (#[trigger] mirror_skip.contains((r, c)) <==> skip.contains((r, (grid_cols - 1 - c) as i32)))
}

/// A plan seen in a mirror: west and east swap, and so do the trimmed ends
/// of its fillers.
pub open spec fn mirror_plan(p: SlabPlan, grid_cols: int) -> SlabPlan {
    SlabPlan {
        row: p.row,
        col: (grid_cols - 1 - p.col) as i32,
        extend_w: p.extend_e,
        extend_e: p.extend_w,
        extend_n: p.extend_n,
        extend_s: p.extend_s,
        north_filler: match p.north_filler {
            Some(t) => Some(FillerTrim { inset_w: t.inset_e, inset_e: t.inset_w }),
            None => None,
        },
        south_filler: match p.south_filler {
            Some(t) => Some(FillerTrim { inset_w: t.inset_e, inset_e: t.inset_w }),
            None => None,
        },
    }
}

/// A floor mirrored east to west is planned as the mirror image of its
/// plan: no side or diagonal counts for more than its mirror twin.
pub proof fn law_floor_plan_mirrors(
    mask: Seq<Vec<bool>>,
    skip: Seq<(i32, i32)>,
    mirror: Seq<Vec<bool>>,
    mirror_skip: Seq<(i32, i32)>,
    grid_cols: int,
    grid_rows: int,
    r: int,
    c: int,
)
    requires
        0 < grid_cols <= i32::MAX,
        0 < grid_rows <= i32::MAX,
        0 <= r < grid_rows,
        0 <= c < grid_cols,
        mirrored_floors(mask, skip, mirror, mirror_skip, grid_cols, grid_rows),
    ensures
        slab_plan(mirror, mirror_skip, grid_cols, grid_rows, r, grid_cols - 1 - c) == mirror_plan(
            slab_plan(mask, skip, grid_cols, grid_rows, r, c),
            grid_cols,
        ),
{
    let m = grid_cols - 1 - c;
    assert(in_mask(mirror, grid_cols, grid_rows, r, m - 1) == in_mask(mask, grid_cols, grid_rows, r, c + 1));
    assert(in_mask(mirror, grid_cols, grid_rows, r, m + 1) == in_mask(mask, grid_cols, grid_rows, r, c - 1));
    assert(in_mask(mirror, grid_cols, grid_rows, r - 1, m) == in_mask(mask, grid_cols, grid_rows, r - 1, c));
    assert(in_mask(mirror, grid_cols, grid_rows, r + 1, m) == in_mask(mask, grid_cols, grid_rows, r + 1, c));
    assert(in_mask(mirror, grid_cols, grid_rows, r - 1, m - 1) == in_mask(mask, grid_cols, grid_rows, r - 1, c + 1));
    assert(in_mask(mirror, grid_cols, grid_rows, r - 1, m + 1) == in_mask(mask, grid_cols, grid_rows, r - 1, c - 1));
    assert(in_mask(mirror, grid_cols, grid_rows, r + 1, m - 1) == in_mask(mask, grid_cols, grid_rows, r + 1, c + 1));
    assert(in_mask(mirror, grid_cols, grid_rows, r + 1, m + 1) == in_mask(mask, grid_cols, grid_rows, r + 1, c - 1));
    assert(mirror_skip.contains((r as i32, m as i32)) == skip.contains((r as i32, c as i32)));
    assert(mirror_skip.contains(((r + 1) as i32, m as i32)) == skip.contains(((r + 1) as i32, c as i32)));
}

/// An end of a horizontal wall answers the walls at its grid point: it
/// stops flush when the wall line goes on past the point, pulls back only
/// when vertical walls run both above and below the point, and otherwise
/// reaches past the point to close the corner.
pub proof fn law_horizontal_wall_ends(e: EdgeGrid, grid_cols: int, grid_rows: int, row: int, col: int)
    requires
        h_edge_ok(grid_cols, grid_rows, row, col),
    ensures
        ({
            let t = horizontal_trims(e, grid_cols, grid_rows, row, col);
            let west_goes_on = col > 0 && e.h(row, col - 1);
            let west_crossed = row > 0 && e.v(row - 1, col) && row < grid_rows && e.v(row, col);
            let east_goes_on = col < grid_cols - 1 && e.h(row, col + 1);
            let east_crossed = row > 0 && e.v(row - 1, col + 1) && row < grid_rows && e.v(row, col + 1);
            &&& (t.0 == EndTrim::Flush <==> west_goes_on)
            &&& (t.0 == EndTrim::Inset <==> !west_goes_on && west_crossed)
            &&& (t.0 == EndTrim::Outset <==> !west_goes_on && !west_crossed)
            &&& (t.1 == EndTrim::Flush <==> east_goes_on)
            &&& (t.1 == EndTrim::Inset <==> !east_goes_on && east_crossed)
            &&& (t.1 == EndTrim::Outset <==> !east_goes_on && !east_crossed)
        }),
{
}

/// Two wall grids that are mirror images east to west.
pub open spec fn mirrored_walls(e: EdgeGrid, f: EdgeGrid, grid_cols: int, grid_rows: int) -> bool {
    &&& forall|r: int, c: int| 0 <= r <= grid_rows && 0 <= c < grid_cols ==> #[trigger] f.h(r, c) == e.h(r, grid_cols - 1 - c)
    &&& forall|r: int, c: int| 0 <= r < grid_rows && 0 <= c <= grid_cols ==> #[trigger] f.v(r, c) == e.v(r, grid_cols - c)
}

/// Mirroring the walls east to west swaps the two ends of a horizontal wall
/// and leaves the ends of a vertical wall as they were: neither end is
/// treated differently from its mirror twin.
pub proof fn law_wall_ends_mirror(e: EdgeGrid, f: EdgeGrid, grid_cols: int, grid_rows: int, row: int, col: int)
    requires
        mirrored_walls(e, f, grid_cols, grid_rows),
    ensures
        h_edge_ok(grid_cols, grid_rows, row, col) ==> horizontal_trims(f, grid_cols, grid_rows, row, grid_cols - 1 - col) == (
            horizontal_trims(e, grid_cols, grid_rows, row, col).1,
            horizontal_trims(e, grid_cols, grid_rows, row, col).0,
        ),
        v_edge_ok(grid_cols, grid_rows, row, col) ==> vertical_trims(f, grid_cols, grid_rows, row, grid_cols - col)
            == vertical_trims(e, grid_cols, grid_rows, row, col),
{
    let m = grid_cols - 1 - col;
    if h_edge_ok(grid_cols, grid_rows, row, col) {
        if m > 0 {
            assert(f.h(row, m - 1) == e.h(row, col + 1));
        }
        if col > 0 {
            assert(f.h(row, m + 1) == e.h(row, col - 1));
        }
        if row > 0 {
            assert(f.v(row - 1, m) == e.v(row - 1, col + 1));
            assert(f.v(row - 1, m + 1) == e.v(row - 1, col));
        }
        if row < grid_rows {
            assert(f.v(row, m) == e.v(row, col + 1));
            assert(f.v(row, m + 1) == e.v(row, col));
        }
    }
    let w = grid_cols - col;
    if v_edge_ok(grid_cols, grid_rows, row, col) {
        if row > 0 {
            assert(f.v(row - 1, w) == e.v(row - 1, col));
            if w < grid_cols {
                assert(f.h(row, w) == e.h(row, col - 1));
            }
            if w > 0 {
                assert(f.h(row, w - 1) == e.h(row, col));
            }
        }
        if row < grid_rows - 1 {
            assert(f.v(row + 1, w) == e.v(row + 1, col));
        }
        if row < grid_rows {
            if w < grid_cols {
                assert(f.h(row + 1, w) == e.h(row + 1, col - 1));
            }
            if w > 0 {
                assert(f.h(row + 1, w - 1) == e.h(row + 1, col));
            }
        }
    }
}

/// The two cells an edge separates are the two cells that have it as a
/// side: above and below a horizontal edge, west and east of a vertical one,
/// the first on the near side.
pub proof fn law_cells_beside_share_the_edge(edges: EdgeGrid, g: GridEdge)
    ensures
        ({
            let a = spec_cells_beside(g)[0];
            let b = spec_cells_beside(g)[1];
            match g {
                GridEdge::Horizontal { row, col } => {
                    &&& a.0 + 1 == b.0 && a.1 == b.1
                    &&& edge_on_side(edges, a.0, a.1, CellSide::South) == edges.h(row as int, col as int)
                    &&& edge_on_side(edges, b.0, b.1, CellSide::North) == edges.h(row as int, col as int)
                },
                GridEdge::Vertical { row, col } => {
                    &&& a.0 == b.0 && a.1 + 1 == b.1
                    &&& edge_on_side(edges, a.0, a.1, CellSide::East) == edges.v(row as int, col as int)
                    &&& edge_on_side(edges, b.0, b.1, CellSide::West) == edges.v(row as int, col as int)
                },
            }
        }),
{
}

/// Whether a wall runs on the named side of cell `(row, col)`: the grid
/// line above it (north), below it (south), left of it (west) or right of
/// it (east).
pub open spec fn wall_toward(edges: EdgeGrid, row: int, col: int, side: WallSide) -> bool {
    match side {
        WallSide::North => edges.h(row, col),
        WallSide::South => edges.h(row + 1, col),
        WallSide::West => edges.v(row, col),
        WallSide::East => edges.v(row, col + 1),
    }
}

/// The cell next to `(row, col)` in the named compass direction.
pub open spec fn cell_toward(row: int, col: int, side: WallSide) -> (int, int) {
    match side {
        WallSide::North => (row - 1, col),
        WallSide::South => (row + 1, col),
        WallSide::West => (row, col - 1),
        WallSide::East => (row, col + 1),
    }
}

/// The cell across side `side` of `(row, col)`.
pub open spec fn cell_across(row: int, col: int, side: CellSide) -> (int, int) {
    match side {
        CellSide::North => (row - 1, col),
        CellSide::South => (row + 1, col),
        CellSide::West => (row, col - 1),
        CellSide::East => (row, col + 1),
    }
}

/// Each authored wall light is kept exactly when it names a cell of the
/// storey and a wall runs on the side it names, and then it hangs in that
/// cell on the side that faces the same neighbour as the side it names;
/// the lights before it stay as they were.
pub proof fn law_wall_light_hangs_on_its_side(level: LevelGrid, tag: u8, defs: Seq<WallLightDef>, n: int)
    requires
        0 < n <= defs.len(),
    ensures
        ({
            let d = defs[n - 1];
            let before = light_picks(level, tag, defs, n - 1);
            let after = light_picks(level, tag, defs, n);
            let kept = level.cells.contains(d.row as int, d.col as int) && wall_toward(
                level.edges,
                d.row as int,
                d.col as int,
                d.side,
            );
            &&& after.take(before.len() as int) == before
            &&& (after.len() == before.len() + 1 <==> kept)
            &&& (!kept ==> after == before)
            &&& (kept ==> {
                let p = after.last();
                &&& p.0 == tag
                &&& p.1 == d.kind@
                &&& p.2 == d.row && p.3 == d.col
                &&& cell_across(d.row as int, d.col as int, p.4) == cell_toward(d.row as int, d.col as int, d.side)
                &&& edge_on_side(level.edges, d.row as int, d.col as int, p.4)
            })
        }),
{
    let before = light_picks(level, tag, defs, n - 1);
    let after = light_picks(level, tag, defs, n);
    assert(after.take(before.len() as int) =~= before);
}

/// The carriers wired to switches are numbered as the tree compile numbers
/// them: record `i` describes carrier `i + 1`, never the world carrier 0,
/// and each wired carrier runs on the switch its own record names; every
/// record that names a switch is wired.
pub proof fn law_carrier_wiring_follows_the_records(records: Seq<CarrierRecord>, n: int)
    requires
        0 <= n <= records.len(),
        records.len() < 0x1_0000,
    ensures
        forall|i: int|
            0 <= i < wired_carriers(records, n).len() ==> {
                let w = #[trigger] wired_carriers(records, n)[i];
                &&& 1 <= w.0.0 <= n
                &&& records[w.0.0 - 1].switch == Some(w.1)
            },
        forall|k: int|
            0 <= k < n && records[k].switch is Some ==> exists|i: int|
                0 <= i < wired_carriers(records, n).len() && (#[trigger] wired_carriers(records, n)[i]).0 == CarrierId(
                    (k + 1) as u16,
                ),
    decreases n,
{
    if n > 0 {
        law_carrier_wiring_follows_the_records(records, n - 1);
        let rest = wired_carriers(records, n - 1);
        let all = wired_carriers(records, n);
        assert forall|i: int| 0 <= i < all.len() implies {
            let w = #[trigger] all[i];
            &&& 1 <= w.0.0 <= n
            &&& records[w.0.0 - 1].switch == Some(w.1)
        } by {
            if i < rest.len() {
                assert(all[i] == rest[i]);
            }
        }
        assert forall|k: int| 0 <= k < n && records[k].switch is Some implies exists|i: int|
            0 <= i < all.len() && (#[trigger] all[i]).0 == CarrierId((k + 1) as u16) by {
            if k < n - 1 {
                let i = choose|i: int| 0 <= i < rest.len() && (#[trigger] rest[i]).0 == CarrierId((k + 1) as u16);
                assert(all[i] == rest[i]);
            } else {
                assert(all[rest.len() as int].0 == CarrierId((k + 1) as u16));
            }
        }
    }
}

/// An end of a vertical wall answers the walls at its grid point: flush
/// when the wall line goes on past the point, pulled back when a horizontal
/// wall touches the point from either side, and otherwise reaching past it.
pub proof fn law_vertical_wall_ends(e: EdgeGrid, grid_cols: int, grid_rows: int, row: int, col: int)
    requires
        v_edge_ok(grid_cols, grid_rows, row, col),
    ensures
        ({
            let t = vertical_trims(e, grid_cols, grid_rows, row, col);
            let top_goes_on = row > 0 && e.v(row - 1, col);
            let top_met = row > 0 && ((col < grid_cols && e.h(row, col)) || (col > 0 && e.h(row, col - 1)));
            let bottom_goes_on = row < grid_rows - 1 && e.v(row + 1, col);
            let bottom_met = (col < grid_cols && e.h(row + 1, col)) || (col > 0 && e.h(row + 1, col - 1));
            &&& (t.0 == EndTrim::Flush <==> top_goes_on)
            &&& (t.0 == EndTrim::Inset <==> !top_goes_on && top_met)
            &&& (t.0 == EndTrim::Outset <==> !top_goes_on && !top_met)
            &&& (t.1 == EndTrim::Flush <==> bottom_goes_on)
            &&& (t.1 == EndTrim::Inset <==> !bottom_goes_on && bottom_met)
            &&& (t.1 == EndTrim::Outset <==> !bottom_goes_on && !bottom_met)
        }),
{
}

proof fn lemma_row_plans_cover(mask: Seq<Vec<bool>>, skip: Seq<(i32, i32)>, grid_cols: int, grid_rows: int, r: int, c: int)
    requires
        0 <= r < grid_rows <= i32::MAX,
        c <= grid_cols <= i32::MAX,
    ensures
        forall|cc: int|
            0 <= cc < c && #[trigger] in_mask(mask, grid_cols, grid_rows, r, cc) ==> exists|i: int|
                0 <= i < row_plans(mask, skip, grid_cols, grid_rows, r, c).len() && (#[trigger] row_plans(
                    mask,
                    skip,
                    grid_cols,
                    grid_rows,
                    r,
                    c,
                )[i]).col == cc,
        forall|i: int, j: int|
            0 <= i < j < row_plans(mask, skip, grid_cols, grid_rows, r, c).len() ==> (#[trigger] row_plans(
                mask,
                skip,
                grid_cols,
                grid_rows,
                r,
                c,
            )[i]).col < (#[trigger] row_plans(mask, skip, grid_cols, grid_rows, r, c)[j]).col,
    decreases c,
{
    if c > 0 {
        lemma_row_plans_cover(mask, skip, grid_cols, grid_rows, r, c - 1);
        lemma_row_plans_answer(mask, skip, grid_cols, grid_rows, r, c - 1);
        let rest = row_plans(mask, skip, grid_cols, grid_rows, r, c - 1);
        let all = row_plans(mask, skip, grid_cols, grid_rows, r, c);
        assert forall|cc: int| 0 <= cc < c && #[trigger] in_mask(mask, grid_cols, grid_rows, r, cc) implies exists|i: int|
            0 <= i < all.len() && (#[trigger] all[i]).col == cc by {
            if cc < c - 1 {
                let i = choose|i: int| 0 <= i < rest.len() && (#[trigger] rest[i]).col == cc;
                assert(all[i] == rest[i]);
            } else {
                assert(all[rest.len() as int].col == cc);
            }
        }
        assert forall|i: int, j: int| 0 <= i < j < all.len() implies (#[trigger] all[i]).col < (#[trigger] all[j]).col by {
            assert(all[i] == rest[i]);
            if j < rest.len() {
                assert(all[j] == rest[j]);
            } else {
                assert(rest[i].col < c - 1);
            }
        }
    }
}

/// Every floor cell of the grid gets exactly one slab plan, and the plans
/// run row by row, west to east within a row.
pub proof fn law_floor_plans_cover_each_cell_once(mask: Seq<Vec<bool>>, skip: Seq<(i32, i32)>, grid_cols: int, grid_rows: int, r: int)
    requires
        0 <= grid_cols <= i32::MAX,
        0 <= r <= grid_rows <= i32::MAX,
    ensures
        forall|rr: int, cc: int|
            0 <= rr < r && 0 <= cc < grid_cols && #[trigger] in_mask(mask, grid_cols, grid_rows, rr, cc) ==> exists|i: int|
                0 <= i < tier_plans(mask, skip, grid_cols, grid_rows, r).len() && (#[trigger] tier_plans(
                    mask,
                    skip,
                    grid_cols,
                    grid_rows,
                    r,
                )[i]).row == rr && tier_plans(mask, skip, grid_cols, grid_rows, r)[i].col == cc,
        forall|i: int, j: int|
            0 <= i < j < tier_plans(mask, skip, grid_cols, grid_rows, r).len() ==> {
                let a = #[trigger] tier_plans(mask, skip, grid_cols, grid_rows, r)[i];
                let b = #[trigger] tier_plans(mask, skip, grid_cols, grid_rows, r)[j];
                a.row < b.row || (a.row == b.row && a.col < b.col)
            },
    decreases r,
{
    if r > 0 {
        law_floor_plans_cover_each_cell_once(mask, skip, grid_cols, grid_rows, r - 1);
        lemma_tier_plans_answer(mask, skip, grid_cols, grid_rows, r - 1);
        lemma_row_plans_cover(mask, skip, grid_cols, grid_rows, r - 1, grid_cols);
        lemma_row_plans_answer(mask, skip, grid_cols, grid_rows, r - 1, grid_cols);
        let a = tier_plans(mask, skip, grid_cols, grid_rows, r - 1);
        let b = row_plans(mask, skip, grid_cols, grid_rows, r - 1, grid_cols);
        let all = tier_plans(mask, skip, grid_cols, grid_rows, r);
        assert(all == a + b);
        assert forall|rr: int, cc: int|
            0 <= rr < r && 0 <= cc < grid_cols && #[trigger] in_mask(mask, grid_cols, grid_rows, rr, cc) implies exists|i: int|
                0 <= i < all.len() && (#[trigger] all[i]).row == rr && all[i].col == cc by {
            if rr < r - 1 {
                let i = choose|i: int| 0 <= i < a.len() && (#[trigger] a[i]).row == rr && a[i].col == cc;
                assert(all[i] == a[i]);
            } else {
                let i = choose|i: int| 0 <= i < b.len() && (#[trigger] b[i]).col == cc;
                assert(all[a.len() + i] == b[i]);
            }
        }
        assert forall|i: int, j: int| 0 <= i < j < all.len() implies {
            let x = #[trigger] all[i];
            let y = #[trigger] all[j];
            x.row < y.row || (x.row == y.row && x.col < y.col)
        } by {
            if j < a.len() {
                assert(all[i] == a[i] && all[j] == a[j]);
            } else if i < a.len() {
                assert(all[i] == a[i] && all[j] == b[j - a.len()]);
            } else {
                assert(all[i] == b[i - a.len()] && all[j] == b[j - a.len()]);
            }
        }
    }
}

} // verus!
