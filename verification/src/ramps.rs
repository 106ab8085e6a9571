//! Placed ramps. A ramp covers a rectangle of cells on its lower level and
//! rises along its direction to the level above; its flags mark the slope
//! on its own level and the way down to it on the storeys it reaches.
use vstd::prelude::*;

use crate::edges::{CellSide, edge_on_side, has_edge_on_cell_side, lemma_cell_sides_in, side_in};
use crate::grid::{Cell, CellGrid, LevelGrid};
use crate::schema::RampDef;

verus! {

/// Which way a ramp rises.
#[derive(Clone, Copy, Debug, PartialEq, Eq, Structural)]
pub enum RampDirection {
    North,
    South,
    East,
    West,
}

/// A solid wedge, or a plank as wide as the walkway it continues.
#[derive(Clone, Copy, Debug, PartialEq, Eq, Structural)]
pub enum RampShape {
    Solid,
    Plank,
}

/// A placed ramp: `cols` and `rows` are grid lines, the end exclusive as a
/// cell range, and it rises `levels` storeys from `lower_level`.
#[derive(Clone, Copy, Debug)]
pub struct RampSpec {
    pub lower_level: u32,
    pub levels: u32,
    pub cols: [i32; 2],
    pub rows: [i32; 2],
    pub direction: RampDirection,
    pub shape: RampShape,
}

pub open spec fn lesser(a: i32, b: i32) -> i32 {
    if a <= b {
        a
    } else {
        b
    }
}

pub open spec fn greater(a: i32, b: i32) -> i32 {
    if a <= b {
        b
    } else {
        a
    }
}

/// The ramp an authored `low`/`high` pair describes: the rectangle between
/// the two grid points, rising one storey along its longer side from the
/// `low` end toward the `high` end.
pub open spec fn spec_ramp_from_def(r: RampDef) -> RampSpec {
    let dx = r.high[0] - r.low[0];
    let dy = r.high[1] - r.low[1];
    let along_x = (if dx < 0 {
        -dx
    } else {
        dx
    }) > (if dy < 0 {
        -dy
    } else {
        dy
    });
    RampSpec {
        lower_level: r.lower_level,
        levels: 1,
        cols: [lesser(r.low[0], r.high[0]), greater(r.low[0], r.high[0])],
        rows: [lesser(r.low[1], r.high[1]), greater(r.low[1], r.high[1])],
        direction: if along_x {
            if dx > 0 {
                RampDirection::East
            } else {
                RampDirection::West
            }
        } else if dy > 0 {
            RampDirection::South
        } else {
            RampDirection::North
        },
        shape: RampShape::Solid,
    }
}

pub fn ramp_spec_from_def(r: &RampDef) -> (spec: RampSpec)
    requires
        r.low[0] >= 0,
        r.low[1] >= 0,
        r.high[0] >= 0,
        r.high[1] >= 0,
    ensures
        spec == spec_ramp_from_def(*r),
{
    let dx = r.high[0] as i64 - r.low[0] as i64;
    let dy = r.high[1] as i64 - r.low[1] as i64;
    let ax = if dx < 0 {
        -dx
    } else {
        dx
    };
    let ay = if dy < 0 {
        -dy
    } else {
        dy
    };
    let direction = if ax > ay {
        if dx > 0 {
            RampDirection::East
        } else {
            RampDirection::West
        }
    } else if dy > 0 {
        RampDirection::South
    } else {
        RampDirection::North
    };
    RampSpec {
        lower_level: r.lower_level,
        levels: 1,
        cols: [
            if r.low[0] <= r.high[0] {
                r.low[0]
            } else {
                r.high[0]
            },
            if r.low[0] <= r.high[0] {
                r.high[0]
            } else {
                r.low[0]
            },
        ],
        rows: [
            if r.low[1] <= r.high[1] {
                r.low[1]
            } else {
                r.high[1]
            },
            if r.low[1] <= r.high[1] {
                r.high[1]
            } else {
                r.low[1]
            },
        ],
        direction,
        shape: RampShape::Solid,
    }
}

/// How many grid cells lie from line `a` up to line `b`; none when `b` is
/// not past `a`.
pub open spec fn span(a: int, b: int) -> nat {
    if a < b {
        (b - a) as nat
    } else {
        0
    }
}

/// Cell `x` along a row (`horizontal`) or column at line `fixed`, as
/// `(row, col)`.
pub open spec fn line_cell(horizontal: bool, fixed: i32, x: int) -> (i32, i32) {
    if horizontal {
        (fixed, x as i32)
    } else {
        (x as i32, fixed)
    }
}

impl RampSpec {
    /// The footprint holds cell `(row, col)`.
    pub open spec fn covers(self, row: int, col: int) -> bool {
        self.rows[0] <= row < self.rows[1] && self.cols[0] <= col < self.cols[1]
    }

    /// The footprint lies inside a grid of this size.
    pub open spec fn fits(self, grid_cols: int, grid_rows: int) -> bool {
        0 <= self.cols[0] < self.cols[1] <= grid_cols && 0 <= self.rows[0] < self.rows[1] <= grid_rows
    }

    /// The cells `(row, col)` of one row of the footprint, west to east.
    pub open spec fn row_cells(self, row: int) -> Seq<(i32, i32)> {
        Seq::new(span(self.cols[0] as int, self.cols[1] as int), |j: int| (row as i32, (self.cols[0] + j) as i32))
    }

    /// The footprint's rows north of `row`, north to south, each west to
    /// east.
    pub open spec fn rows_before(self, row: int) -> Seq<(i32, i32)>
        decreases row - self.rows[0],
    {
        if row <= self.rows[0] {
            Seq::empty()
        } else {
            self.rows_before(row - 1) + self.row_cells(row - 1)
        }
    }

    /// The cells along one side of the footprint, in grid order.
    pub open spec fn side_cells(self, side: CellSide) -> Seq<(i32, i32)> {
        let across = span(self.cols[0] as int, self.cols[1] as int);
        let down = span(self.rows[0] as int, self.rows[1] as int);
        match side {
            CellSide::North => Seq::new(across, |j: int| (self.rows[0], (self.cols[0] + j) as i32)),
            CellSide::South => Seq::new(across, |j: int| ((self.rows[1] - 1) as i32, (self.cols[0] + j) as i32)),
            CellSide::West => Seq::new(down, |i: int| ((self.rows[0] + i) as i32, self.cols[0])),
            CellSide::East => Seq::new(down, |i: int| ((self.rows[0] + i) as i32, (self.cols[1] - 1) as i32)),
        }
    }

    /// The footprint cells as `(row, col)`, row by row from the north and
    /// west to east within a row.
    pub fn footprint_cells(&self) -> (cells: Vec<(i32, i32)>)
        ensures
            cells@ == self.rows_before(self.rows[1] as int),
            forall|i: int| 0 <= i < cells@.len() ==> self.covers((#[trigger] cells@[i]).0 as int, cells@[i].1 as int),
            forall|row: int, col: int| #[trigger] self.covers(row, col) ==> cells@.contains((row as i32, col as i32)),
    {
        let mut cells: Vec<(i32, i32)> = Vec::new();
        let mut row = self.rows[0];
        while row < self.rows[1]
            invariant
                self.rows[0] <= row <= self.rows[1] || (row == self.rows[0] && self.rows[1] < self.rows[0]),
                cells@ == self.rows_before(row as int),
                forall|i: int| 0 <= i < cells@.len() ==> self.covers((#[trigger] cells@[i]).0 as int, cells@[i].1 as int),
                forall|r: int, col: int|
                    #[trigger] self.covers(r, col) && r < row ==> cells@.contains((r as i32, col as i32)),
            decreases self.rows[1] - row,
        {
            let mut col = self.cols[0];
            let ghost before = cells@;
            while col < self.cols[1]
                invariant
                    self.rows[0] <= row < self.rows[1],
                    self.cols[0] <= col <= self.cols[1] || (col == self.cols[0] && self.cols[1] < self.cols[0]),
                    cells@ == self.rows_before(row as int) + self.row_cells(row as int).take(col - self.cols[0]),
                    forall|i: int| 0 <= i < cells@.len() ==> self.covers((#[trigger] cells@[i]).0 as int, cells@[i].1 as int),
                    forall|x: (i32, i32)| before.contains(x) ==> #[trigger] cells@.contains(x),
                    forall|c: int| self.cols[0] <= c < col ==> #[trigger] cells@.contains((row, c as i32)),
                decreases self.cols[1] - col,
            {
                let ghost prev = cells@;
                cells.push((row, col));
                proof {
                    let line = self.row_cells(row as int);
                    assert(line[col - self.cols[0]] == (row, col));
                    assert(cells@ =~= self.rows_before(row as int) + line.take(col + 1 - self.cols[0]));
                    lemma_push_keeps(prev, (row, col));
                    assert forall|x: (i32, i32)| before.contains(x) implies #[trigger] cells@.contains(x) by {
                        assert(prev.contains(x));
                    }
                    assert forall|c: int| self.cols[0] <= c < col + 1 implies #[trigger] cells@.contains((row, c as i32)) by {
                        if c < col {
                            assert(prev.contains((row, c as i32)));
                        }
                    }
                }
                col = col + 1;
            }
            proof {
                let line = self.row_cells(row as int);
                assert(line.take(col - self.cols[0]) =~= line);
                assert(self.rows_before(row + 1) == self.rows_before(row as int) + line);
            }
            row = row + 1;
        }
        cells
    }

    /// The footprint cells along one of its sides, as `(row, col)`.
    pub open spec fn on_edge(self, side: CellSide, row: int, col: int) -> bool {
        match side {
            CellSide::North => row == self.rows[0] && self.cols[0] <= col < self.cols[1],
            CellSide::South => row == self.rows[1] - 1 && self.cols[0] <= col < self.cols[1],
            CellSide::West => col == self.cols[0] && self.rows[0] <= row < self.rows[1],
            CellSide::East => col == self.cols[1] - 1 && self.rows[0] <= row < self.rows[1],
        }
    }

    pub fn edge_cells(&self, side: CellSide) -> (cells: Vec<(i32, i32)>)
        requires
            self.rows[1] > i32::MIN,
            self.cols[1] > i32::MIN,
        ensures
            cells@ == self.side_cells(side),
            forall|i: int| 0 <= i < cells@.len() ==> self.on_edge(side, (#[trigger] cells@[i]).0 as int, cells@[i].1 as int),
            forall|row: int, col: int| #[trigger] self.on_edge(side, row, col) ==> cells@.contains((row as i32, col as i32)),
    {
        let mut cells: Vec<(i32, i32)> = Vec::new();
        let horizontal = match side {
            CellSide::North | CellSide::South => true,
            CellSide::West | CellSide::East => false,
        };
        let fixed: i32 = match side {
            CellSide::North => self.rows[0],
            CellSide::South => self.rows[1] - 1,
            CellSide::West => self.cols[0],
            CellSide::East => self.cols[1] - 1,
        };
        let start = if horizontal {
            self.cols[0]
        } else {
            self.rows[0]
        };
        let end = if horizontal {
            self.cols[1]
        } else {
            self.rows[1]
        };
        proof {
            assert forall|x: int| start <= x < end implies self.on_edge(side, line_cell(horizontal, fixed, x).0 as int, line_cell(horizontal, fixed, x).1 as int) by {
            }
        }
        let mut k = start;
        while k < end
            invariant
                start <= k <= end || (k == start && end < start),
                cells@ == Seq::new(span(start as int, k as int), |i: int| line_cell(horizontal, fixed, start + i)),
                forall|x: int| start <= x < end ==> self.on_edge(side, #[trigger] line_cell(horizontal, fixed, x).0 as int, line_cell(horizontal, fixed, x).1 as int),
                forall|i: int| 0 <= i < cells@.len() ==> self.on_edge(side, (#[trigger] cells@[i]).0 as int, cells@[i].1 as int),
                forall|x: int| start <= x < k ==> #[trigger] cells@.contains(line_cell(horizontal, fixed, x)),
            decreases end - k,
        {
            let ghost prev = cells@;
            let cell = if horizontal {
                (fixed, k)
            } else {
                (k, fixed)
            };
            proof {
                assert(cell == line_cell(horizontal, fixed, k as int));
            }
            cells.push(cell);
            proof {
                assert(cells@ =~= Seq::new(span(start as int, k + 1), |i: int| line_cell(horizontal, fixed, start + i)));
                lemma_push_keeps(prev, cell);
                assert forall|x: int| start <= x < k + 1 implies #[trigger] cells@.contains(line_cell(horizontal, fixed, x)) by {
                    if x < k {
                        assert(prev.contains(line_cell(horizontal, fixed, x)));
                    }
                }
            }
            k = k + 1;
        }
        proof {
            assert(cells@ =~= self.side_cells(side));
            assert forall|row: int, col: int| #[trigger] self.on_edge(side, row, col) implies cells@.contains(
                (row as i32, col as i32),
            ) by {
                if horizontal {
                    assert(cells@.contains(line_cell(horizontal, fixed, col)));
                } else {
                    assert(cells@.contains(line_cell(horizontal, fixed, row)));
                }
            }
        }
        cells
    }
}

pub proof fn lemma_push_keeps<A>(s: Seq<A>, v: A)
    ensures
        forall|x: A| #[trigger] s.push(v).contains(x) <==> s.contains(x) || x == v,
{
    assert forall|x: A| #[trigger] s.push(v).contains(x) <==> s.contains(x) || x == v by {
        if s.push(v).contains(x) {
            let a = choose|a: int| 0 <= a < s.push(v).len() && s.push(v)[a] == x;
            if a < s.len() {
                assert(s[a] == x);
            }
        }
        if s.contains(x) {
            let a = choose|a: int| 0 <= a < s.len() && s[a] == x;
            assert(s.push(v)[a] == x);
        }
        if x == v {
            assert(s.push(v)[s.len() as int] == x);
        }
    }
}

/// A wall runs along `side` of the footprint on one of the levels `levels`.
pub open spec fn walled_on(r: RampSpec, side: CellSide, levels: Seq<LevelGrid>) -> bool {
    exists|l: int, row: int, col: int|
        r.lower_level <= l < r.lower_level + r.levels && 0 <= l < levels.len() && r.on_edge(side, row, col)
            && #[trigger] edge_on_side(levels[l].edges, row, col, side)
}

/// Every storey of `levels` has grids of the given size.
pub open spec fn levels_shaped(levels: Seq<LevelGrid>, grid_cols: int, grid_rows: int) -> bool {
    forall|l: int| 0 <= l < levels.len() ==> (#[trigger] levels[l]).has_shape(grid_cols, grid_rows)
}

impl RampSpec {
    /// Whether a wall runs along this side of the footprint on a storey the
    /// slope passes through. A plank stays flush along such a side.
    pub fn walled(&self, side: CellSide, levels: &Vec<LevelGrid>, grid_cols: i32, grid_rows: i32) -> (w: bool)
        requires
            self.fits(grid_cols as int, grid_rows as int),
            levels_shaped(levels@, grid_cols as int, grid_rows as int),
            grid_cols < i32::MAX,
            grid_rows < i32::MAX,
        ensures
            w == walled_on(*self, side, levels@),
    {
        let upper: u64 = self.lower_level as u64 + self.levels as u64;
        let cells = self.edge_cells(side);
        let mut l: usize = self.lower_level as usize;
        while (l as u64) < upper && l < levels.len()
            invariant
                self.lower_level <= l,
                upper == self.lower_level + self.levels,
                self.fits(grid_cols as int, grid_rows as int),
                levels_shaped(levels@, grid_cols as int, grid_rows as int),
                grid_cols < i32::MAX,
                grid_rows < i32::MAX,
                forall|i: int| 0 <= i < cells@.len() ==> self.on_edge(side, (#[trigger] cells@[i]).0 as int, cells@[i].1 as int),
                forall|row: int, col: int| #[trigger] self.on_edge(side, row, col) ==> cells@.contains((row as i32, col as i32)),
                forall|m: int, row: int, col: int|
                    self.lower_level <= m < l && 0 <= m < levels@.len() && self.on_edge(side, row, col) ==> !#[trigger] edge_on_side(
                        levels@[m].edges,
                        row,
                        col,
                        side,
                    ),
            decreases levels@.len() - l,
        {
            let grid = &levels[l];
            let mut k: usize = 0;
            while k < cells.len()
                invariant
                    l < levels@.len(),
                    self.lower_level <= l < self.lower_level + self.levels,
                    *grid == levels@[l as int],
                    grid.has_shape(grid_cols as int, grid_rows as int),
                    self.fits(grid_cols as int, grid_rows as int),
                    grid_cols < i32::MAX,
                    grid_rows < i32::MAX,
                    k <= cells@.len(),
                    forall|i: int| 0 <= i < cells@.len() ==> self.on_edge(side, (#[trigger] cells@[i]).0 as int, cells@[i].1 as int),
                    forall|i: int|
                        0 <= i < k ==> !edge_on_side(grid.edges, (#[trigger] cells@[i]).0 as int, cells@[i].1 as int, side),
                decreases cells@.len() - k,
            {
                let (row, col) = cells[k];
                proof {
                    assert(self.on_edge(side, cells@[k as int].0 as int, cells@[k as int].1 as int));
                    lemma_cell_sides_in(grid.edges, grid_cols as int, grid_rows as int, row as int, col as int);
                }
                if has_edge_on_cell_side(&grid.edges, row, col, side) {
                    proof {
                        assert(self.on_edge(side, row as int, col as int));
                        assert(edge_on_side(levels@[l as int].edges, row as int, col as int, side));
                    }
                    return true;
                }
                k = k + 1;
            }
            proof {
                assert forall|row: int, col: int| #[trigger] self.on_edge(side, row, col) implies !edge_on_side(
                    levels@[l as int].edges,
                    row,
                    col,
                    side,
                ) by {
                    assert(cells@.contains((row as i32, col as i32)));
                    let i = choose|i: int| 0 <= i < cells@.len() && cells@[i] == (row as i32, col as i32);
                    assert(!edge_on_side(grid.edges, cells@[i].0 as int, cells@[i].1 as int, side));
                }
            }
            l = l + 1;
        }
        false
    }
}

/// Some ramp has its slope on `level` at cell `(row, col)`.
pub open spec fn slope_at(ramps: Seq<RampSpec>, level: int, row: int, col: int) -> bool {
    exists|j: int| 0 <= j < ramps.len() && (#[trigger] ramps[j]).lower_level == level && ramps[j].covers(row, col)
}

/// Some ramp passes through or arrives at `level` over cell `(row, col)`.
pub open spec fn slope_below(ramps: Seq<RampSpec>, level: int, row: int, col: int) -> bool {
    exists|j: int|
        0 <= j < ramps.len() && (#[trigger] ramps[j]).lower_level < level <= ramps[j].lower_level + ramps[j].levels
            && ramps[j].covers(row, col)
}

/// `cell` with the ramp flags of `level` at `(row, col)` added.
pub open spec fn with_ramps(cell: Cell, ramps: Seq<RampSpec>, level: int, row: int, col: int) -> Cell {
    Cell {
        has_ramp: cell.has_ramp || slope_at(ramps, level, row, col),
        has_ramp_from_below: cell.has_ramp_from_below || slope_below(ramps, level, row, col),
        ..cell
    }
}

fn ramp_flags(ramps: &Vec<RampSpec>, level: u32, row: i32, col: i32) -> (flags: (bool, bool))
    ensures
        flags.0 == slope_at(ramps@, level as int, row as int, col as int),
        flags.1 == slope_below(ramps@, level as int, row as int, col as int),
{
    let mut on = false;
    let mut below = false;
    let mut j: usize = 0;
    while j < ramps.len()
        invariant
            j <= ramps@.len(),
            on == exists|x: int| 0 <= x < j && (#[trigger] ramps@[x]).lower_level == level && ramps@[x].covers(row as int, col as int),
            below == exists|x: int|
                0 <= x < j && (#[trigger] ramps@[x]).lower_level < level <= ramps@[x].lower_level + ramps@[x].levels
                    && ramps@[x].covers(row as int, col as int),
        decreases ramps@.len() - j,
    {
        let r = ramps[j];
        let inside = r.rows[0] <= row && row < r.rows[1] && r.cols[0] <= col && col < r.cols[1];
        if inside && r.lower_level == level {
            on = true;
        }
        if inside && r.lower_level < level && (level as u64) <= r.lower_level as u64 + r.levels as u64 {
            below = true;
        }
        j = j + 1;
    }
    (on, below)
}

/// Apply ramp flags to a level's cells: the slope on the ramp's own level,
/// and the way down to it on every storey it passes or arrives at.
pub fn apply_to_level_cells(cells: &mut CellGrid, ramps: &Vec<RampSpec>, level: u32)
    requires
        old(cells).rows@.len() <= i32::MAX,
        forall|r: int| 0 <= r < old(cells).rows@.len() ==> #[trigger] old(cells).rows@[r]@.len() <= i32::MAX,
    ensures
        crate::mask::same_shape(*old(cells), *final(cells)),
        forall|r: int, c: int|
            #![trigger final(cells).cell(r, c)]
            old(cells).contains(r, c) ==> final(cells).cell(r, c) == with_ramps(old(cells).cell(r, c), ramps@, level as int, r, c),
{
    let ghost start = *cells;
    let mut r: usize = 0;
    while r < cells.rows.len()
        invariant
            r <= cells.rows@.len(),
            start.rows@.len() <= i32::MAX,
            forall|i: int| 0 <= i < start.rows@.len() ==> #[trigger] start.rows@[i]@.len() <= i32::MAX,
            crate::mask::same_shape(start, *cells),
            forall|i: int, c: int|
                #![trigger cells.cell(i, c)]
                0 <= i < r && start.contains(i, c) ==> cells.cell(i, c) == with_ramps(start.cell(i, c), ramps@, level as int, i, c),
            forall|i: int| r <= i < cells.rows@.len() ==> #[trigger] cells.rows@[i] == start.rows@[i],
        decreases cells.rows@.len() - r,
    {
        let mut c: usize = 0;
        let ghost row_start = *cells;
        while c < cells.rows[r].len()
            invariant
                r < cells.rows@.len(),
                start.rows@.len() <= i32::MAX,
                c <= cells.rows@[r as int]@.len(),
                cells.rows@[r as int]@.len() == start.rows@[r as int]@.len(),
                start.rows@[r as int]@.len() <= i32::MAX,
                crate::mask::same_shape(start, *cells),
                forall|i: int| 0 <= i < cells.rows@.len() && i != r ==> #[trigger] cells.rows@[i] == row_start.rows@[i],
                forall|k: int|
                    #![trigger cells.rows@[r as int]@[k]]
                    0 <= k < c ==> cells.rows@[r as int]@[k] == with_ramps(start.cell(r as int, k), ramps@, level as int, r as int, k),
                forall|k: int|
                    #![trigger cells.rows@[r as int]@[k]]
                    c <= k < cells.rows@[r as int]@.len() ==> cells.rows@[r as int]@[k] == start.cell(r as int, k),
            decreases cells.rows@[r as int]@.len() - c,
        {
            let (on, below) = ramp_flags(ramps, level, r as i32, c as i32);
            if on {
                cells.rows[r][c].has_ramp = true;
            }
            if below {
                cells.rows[r][c].has_ramp_from_below = true;
            }
            c = c + 1;
        }
        proof {
            assert forall|i: int, k: int| 0 <= i < r + 1 && start.contains(i, k) implies #[trigger] cells.cell(i, k) == with_ramps(
                start.cell(i, k),
                ramps@,
                level as int,
                i,
                k,
            ) by {
                if i < r {
                    assert(cells.rows@[i] == row_start.rows@[i]);
                    assert(row_start.cell(i, k) == cells.cell(i, k));
                } else {
                    assert(cells.rows@[r as int]@[k] == cells.cell(i, k));
                }
            }
        }
        r = r + 1;
    }
}

} // verus!
