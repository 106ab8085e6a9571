//! The slab layout of one floor tier. Each floor cell gets a slab on its
//! grid bounds; a side without a neighbouring floor reaches half a wall
//! further, so the slab covers where a perimeter wall would sit, except that
//! the north and south sides hold back when a diagonal neighbour sits on
//! that side, whose own west or east reach already covers the corner. Where
//! that leaves an L-shaped gap, a thin corner filler patches it, unless a
//! ramp arrives over that edge.
use vstd::prelude::*;

verus! {

/// Which ends of a corner filler pull back to the grid line, next to the
/// diagonal neighbour whose slab already covers them.
#[derive(Clone, Copy, Debug, PartialEq, Eq, Structural)]
pub struct FillerTrim {
    pub inset_w: bool,
    pub inset_e: bool,
}

/// The slab of one floor cell: which sides reach past the grid line, and
/// the corner fillers north and south of it.
#[derive(Clone, Copy, Debug, PartialEq, Eq, Structural)]
pub struct SlabPlan {
    pub row: i32,
    pub col: i32,
    pub extend_w: bool,
    pub extend_e: bool,
    pub extend_n: bool,
    pub extend_s: bool,
    pub north_filler: Option<FillerTrim>,
    pub south_filler: Option<FillerTrim>,
}

/// Cell `(r, c)` is on the grid and in the mask.
pub open spec fn in_mask(mask: Seq<Vec<bool>>, grid_cols: int, grid_rows: int, r: int, c: int) -> bool {
    0 <= r < grid_rows && 0 <= c < grid_cols && mask[r]@[c]
}

/// The slab plan of floor cell `(r, c)`; `skip` lists the horizontal edges
/// `(row, col)` where a ramp arrives, over which no filler goes.
pub open spec fn slab_plan(mask: Seq<Vec<bool>>, skip: Seq<(i32, i32)>, grid_cols: int, grid_rows: int, r: int, c: int) -> SlabPlan {
    let w = in_mask(mask, grid_cols, grid_rows, r, c - 1);
    let e = in_mask(mask, grid_cols, grid_rows, r, c + 1);
    let n = in_mask(mask, grid_cols, grid_rows, r - 1, c);
    let s = in_mask(mask, grid_cols, grid_rows, r + 1, c);
    let nw = in_mask(mask, grid_cols, grid_rows, r - 1, c - 1);
    let ne = in_mask(mask, grid_cols, grid_rows, r - 1, c + 1);
    let sw = in_mask(mask, grid_cols, grid_rows, r + 1, c - 1);
    let se = in_mask(mask, grid_cols, grid_rows, r + 1, c + 1);
    let extend_n = !n && !nw && !ne;
    let extend_s = !s && !sw && !se;
    SlabPlan {
        row: r as i32,
        col: c as i32,
        extend_w: !w,
        extend_e: !e,
        extend_n,
        extend_s,
        north_filler: if !extend_n && !n && (nw || ne) && !skip.contains((r as i32, c as i32)) {
            Some(FillerTrim { inset_w: nw, inset_e: ne })
        } else {
            None
        },
        south_filler: if !extend_s && !s && (sw || se) && !skip.contains(((r + 1) as i32, c as i32)) {
            Some(FillerTrim { inset_w: sw, inset_e: se })
        } else {
            None
        },
    }
}

/// The plans of the floor cells of row `r` before column `c`, west to east.
pub open spec fn row_plans(mask: Seq<Vec<bool>>, skip: Seq<(i32, i32)>, grid_cols: int, grid_rows: int, r: int, c: int) -> Seq<SlabPlan>
    decreases c,
{
    if c <= 0 {
        Seq::empty()
    } else {
        let rest = row_plans(mask, skip, grid_cols, grid_rows, r, c - 1);
        if in_mask(mask, grid_cols, grid_rows, r, c - 1) {
            rest.push(slab_plan(mask, skip, grid_cols, grid_rows, r, c - 1))
        } else {
            rest
        }
    }
}

/// The plans of the floor cells of the rows before `r`, row by row.
pub open spec fn tier_plans(mask: Seq<Vec<bool>>, skip: Seq<(i32, i32)>, grid_cols: int, grid_rows: int, r: int) -> Seq<SlabPlan>
    decreases r,
{
    if r <= 0 {
        Seq::empty()
    } else {
        tier_plans(mask, skip, grid_cols, grid_rows, r - 1) + row_plans(mask, skip, grid_cols, grid_rows, r - 1, grid_cols)
    }
}

fn mask_has(mask: &Vec<Vec<bool>>, grid_cols: i32, grid_rows: i32, r: i32, c: i32) -> (b: bool)
    requires
        crate::grid::bool_rows_shape(mask@, grid_cols as int, grid_rows as int),
    ensures
        b == in_mask(mask@, grid_cols as int, grid_rows as int, r as int, c as int),
{
    if 0 <= r && r < grid_rows && 0 <= c && c < grid_cols {
        mask[r as usize][c as usize]
    } else {
        false
    }
}

fn skip_has(skip: &Vec<(i32, i32)>, cell: (i32, i32)) -> (b: bool)
    ensures
        b == skip@.contains(cell),
{
    let mut i: usize = 0;
    while i < skip.len()
        invariant
            i <= skip@.len(),
            forall|j: int| 0 <= j < i ==> skip@[j] != cell,
        decreases skip@.len() - i,
    {
        if skip[i].0 == cell.0 && skip[i].1 == cell.1 {
            assert(skip@[i as int] == cell);
            return true;
        }
        i = i + 1;
    }
    false
}

/// The slab plan of every floor cell of a tier, row by row and west to east
/// within a row.
pub fn emit_floor_tier(mask: &Vec<Vec<bool>>, skip_corner_filler_edges: &Vec<(i32, i32)>, grid_cols: i32, grid_rows: i32) -> (plans:
    Vec<SlabPlan>)
    requires
        0 <= grid_cols,
        0 <= grid_rows,
        crate::grid::bool_rows_shape(mask@, grid_cols as int, grid_rows as int),
    ensures
        plans@ == tier_plans(mask@, skip_corner_filler_edges@, grid_cols as int, grid_rows as int, grid_rows as int),
{
    let ghost skip = skip_corner_filler_edges@;
    let mut plans: Vec<SlabPlan> = Vec::new();
    let mut row: i32 = 0;
    while row < grid_rows
        invariant
            0 <= row <= grid_rows,
            0 <= grid_cols,
            skip == skip_corner_filler_edges@,
            crate::grid::bool_rows_shape(mask@, grid_cols as int, grid_rows as int),
            plans@ == tier_plans(mask@, skip, grid_cols as int, grid_rows as int, row as int),
        decreases grid_rows - row,
    {
        let ghost start = plans@;
        let mut col: i32 = 0;
        while col < grid_cols
            invariant
                0 <= row < grid_rows,
                0 <= col <= grid_cols,
                0 <= grid_cols,
                skip == skip_corner_filler_edges@,
                crate::grid::bool_rows_shape(mask@, grid_cols as int, grid_rows as int),
                start == tier_plans(mask@, skip, grid_cols as int, grid_rows as int, row as int),
                plans@ == start + row_plans(mask@, skip, grid_cols as int, grid_rows as int, row as int, col as int),
            decreases grid_cols - col,
        {
            if mask_has(mask, grid_cols, grid_rows, row, col) {
                let w = mask_has(mask, grid_cols, grid_rows, row, col - 1);
                let e = mask_has(mask, grid_cols, grid_rows, row, col + 1);
                let n = mask_has(mask, grid_cols, grid_rows, row - 1, col);
                let s = mask_has(mask, grid_cols, grid_rows, row + 1, col);
                let nw = mask_has(mask, grid_cols, grid_rows, row - 1, col - 1);
                let ne = mask_has(mask, grid_cols, grid_rows, row - 1, col + 1);
                let sw = mask_has(mask, grid_cols, grid_rows, row + 1, col - 1);
                let se = mask_has(mask, grid_cols, grid_rows, row + 1, col + 1);
                let extend_n = !n && !nw && !ne;
                let extend_s = !s && !sw && !se;
                let north_filler = if !extend_n && !n && (nw || ne) && !skip_has(skip_corner_filler_edges, (row, col)) {
                    Some(FillerTrim { inset_w: nw, inset_e: ne })
                } else {
                    None
                };
                let south_filler = if !extend_s && !s && (sw || se) && !skip_has(skip_corner_filler_edges, (row + 1, col)) {
                    Some(FillerTrim { inset_w: sw, inset_e: se })
                } else {
                    None
                };
                let plan = SlabPlan {
                    row,
                    col,
                    extend_w: !w,
                    extend_e: !e,
                    extend_n,
                    extend_s,
                    north_filler,
                    south_filler,
                };
                proof {
                    assert(plan == slab_plan(mask@, skip, grid_cols as int, grid_rows as int, row as int, col as int));
                }
                plans.push(plan);
            }
            proof {
                assert(plans@ =~= start + row_plans(mask@, skip, grid_cols as int, grid_rows as int, row as int, col + 1));
            }
            col = col + 1;
        }
        proof {
            assert(plans@ =~= tier_plans(mask@, skip, grid_cols as int, grid_rows as int, row + 1));
        }
        row = row + 1;
    }
    plans
}

} // verus!
