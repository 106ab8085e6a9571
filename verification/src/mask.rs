use vstd::prelude::*;

use crate::grid::{Cell, CellGrid};

verus! {

/// A boolean grid covering a whole map; `mask[row][col] == true` means the
/// level this mask belongs to has floor at that cell.
pub type Mask = Vec<Vec<bool>>;

/// `mask[row][col]`.
pub open spec fn mask_at(mask: Seq<Vec<bool>>, row: int, col: int) -> bool {
    mask[row]@[col]
}

/// The mask reaches every cell of `cells`.
pub open spec fn mask_covers(mask: Seq<Vec<bool>>, cells: CellGrid) -> bool {
    &&& mask.len() >= cells.rows@.len()
    &&& forall|r: int| 0 <= r < cells.rows@.len() ==> #[trigger] mask[r]@.len() >= cells.rows@[r]@.len()
}

/// The two grids have the same rows of the same lengths.
pub open spec fn same_shape(a: CellGrid, b: CellGrid) -> bool {
    &&& a.rows@.len() == b.rows@.len()
    &&& forall|r: int| 0 <= r < a.rows@.len() ==> #[trigger] a.rows@[r]@.len() == b.rows@[r]@.len()
}

/// Which flag a marking pass sets.
#[derive(Clone, Copy, Debug, PartialEq, Eq, Structural)]
pub enum FloorFlag {
    Floor,
    FloorSlab,
    FloorAbove,
}

/// `cell` with `flag` set.
pub open spec fn with_flag(cell: Cell, flag: FloorFlag) -> Cell {
    match flag {
        FloorFlag::Floor => Cell { has_floor: true, ..cell },
        FloorFlag::FloorSlab => Cell { has_floor_slab: true, ..cell },
        FloorFlag::FloorAbove => Cell { has_floor_above: true, ..cell },
    }
}

/// `after` is `before` with `flag` set on exactly the cells `mask` marks.
pub open spec fn marked(before: CellGrid, after: CellGrid, mask: Seq<Vec<bool>>, flag: FloorFlag) -> bool {
    &&& same_shape(before, after)
    &&& forall|r: int, c: int|
        #![trigger after.cell(r, c)]
        before.contains(r, c) ==> after.cell(r, c) == if mask_at(mask, r, c) {
            with_flag(before.cell(r, c), flag)
        } else {
            before.cell(r, c)
        }
}

/// Set `flag` on every cell of `cells` that `mask` marks.
pub fn mark_flag(cells: &mut CellGrid, mask: &Mask, flag: FloorFlag)
    requires
        mask_covers(mask@, *old(cells)),
    ensures
        marked(*old(cells), *final(cells), mask@, flag),
{
    let ghost start = *cells;
    let mut r: usize = 0;
    while r < cells.rows.len()
        invariant
            r <= cells.rows@.len(),
            mask_covers(mask@, start),
            same_shape(start, *cells),
            forall|i: int, c: int|
                #![trigger cells.cell(i, c)]
                0 <= i < r && start.contains(i, c) ==> cells.cell(i, c) == if mask_at(mask@, i, c) {
                    with_flag(start.cell(i, c), flag)
                } else {
                    start.cell(i, c)
                },
            forall|i: int| r <= i < cells.rows@.len() ==> #[trigger] cells.rows@[i] == start.rows@[i],
        decreases cells.rows@.len() - r,
    {
        let mut c: usize = 0;
        let ghost row_start = *cells;
        while c < cells.rows[r].len()
            invariant
                r < cells.rows@.len(),
                c <= cells.rows@[r as int]@.len(),
                mask_covers(mask@, start),
                same_shape(start, *cells),
                cells.rows@[r as int]@.len() == start.rows@[r as int]@.len(),
                forall|i: int| 0 <= i < cells.rows@.len() && i != r ==> #[trigger] cells.rows@[i] == row_start.rows@[i],
                forall|k: int|
                    #![trigger cells.rows@[r as int]@[k]]
                    0 <= k < c ==> cells.rows@[r as int]@[k] == if mask_at(mask@, r as int, k) {
                        with_flag(start.cell(r as int, k), flag)
                    } else {
                        start.cell(r as int, k)
                    },
                forall|k: int|
                    #![trigger cells.rows@[r as int]@[k]]
                    c <= k < cells.rows@[r as int]@.len() ==> cells.rows@[r as int]@[k] == start.cell(
                        r as int,
                        k,
                    ),
            decreases cells.rows@[r as int]@.len() - c,
        {
            assert(mask@[r as int]@.len() >= start.rows@[r as int]@.len());
            if mask[r][c] {
                match flag {
                    FloorFlag::Floor => {
                        cells.rows[r][c].has_floor = true;
                    },
                    FloorFlag::FloorSlab => {
                        cells.rows[r][c].has_floor_slab = true;
                    },
                    FloorFlag::FloorAbove => {
                        cells.rows[r][c].has_floor_above = true;
                    },
                }
            }
            c = c + 1;
        }
        proof {
            assert forall|i: int, k: int|
                0 <= i < r + 1 && start.contains(i, k) implies #[trigger] cells.cell(i, k) == if mask_at(
                mask@,
                i,
                k,
            ) {
                with_flag(start.cell(i, k), flag)
            } else {
                start.cell(i, k)
            } by {
                if i < r {
                    assert(cells.rows@[i] == row_start.rows@[i]);
                    assert(row_start.cell(i, k) == cells.cell(i, k));
                } else {
                    assert(cells.rows@[r as int]@[k] == cells.cell(i, k));
                }
            }
        }
        r = r + 1;
    }
}

/// Mark `has_floor_above` on cells where `upper_mask[r][c]` is set. Used by
/// the wall-lights generator to skip cells that are under a roof.
pub fn mark_has_floor_above(cells: &mut CellGrid, upper_mask: &Mask)
    requires
        mask_covers(upper_mask@, *old(cells)),
    ensures
        marked(*old(cells), *final(cells), upper_mask@, FloorFlag::FloorAbove),
{
    mark_flag(cells, upper_mask, FloorFlag::FloorAbove);
}

/// Mark `has_floor` on cells where `mask[r][c]` is set. Used by the spawn
/// placer to skip cells without a floor.
pub fn mark_has_floor(cells: &mut CellGrid, mask: &Mask)
    requires
        mask_covers(mask@, *old(cells)),
    ensures
        marked(*old(cells), *final(cells), mask@, FloorFlag::Floor),
{
    mark_flag(cells, mask, FloorFlag::Floor);
}

/// Mark `has_floor_slab` on cells where `mask[r][c]` is set: the cells with
/// a slab, accessible or not.
pub fn mark_has_floor_slab(cells: &mut CellGrid, mask: &Mask)
    requires
        mask_covers(mask@, *old(cells)),
    ensures
        marked(*old(cells), *final(cells), mask@, FloorFlag::FloorSlab),
{
    mark_flag(cells, mask, FloorFlag::FloorSlab);
}

/// A mask of `grid_rows` rows of `grid_cols` cleared cells.
pub fn empty_mask(grid_cols: i32, grid_rows: i32) -> (m: Mask)
    requires
        grid_cols >= 0,
        grid_rows >= 0,
    ensures
        crate::grid::bool_rows_shape(m@, grid_cols as int, grid_rows as int),
        forall|r: int, c: int| 0 <= r < grid_rows && 0 <= c < grid_cols ==> !#[trigger] mask_at(m@, r, c),
{
    crate::grid::false_rows(grid_cols as usize, grid_rows as usize)
}

} // verus!
