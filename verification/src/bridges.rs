//! Merge the light-bridge cells of each kind into rectangles, largest
//! first: each pass takes the biggest all-free rectangle, so a walkway with
//! spurs keeps one collider along its length whichever way it runs. Works
//! in grid space because bridges are authored per cell.
use vstd::prelude::*;

use crate::ids::BridgeKindId;

verus! {

/// Half-open cell rectangle `[c0, c1) x [r0, r1)` of a single kind.
#[derive(Clone, Copy, Debug, PartialEq, Eq, Structural)]
pub struct BridgeRect {
    pub c0: i32,
    pub r0: i32,
    pub c1: i32,
    pub r1: i32,
    pub kind: BridgeKindId,
}

impl BridgeRect {
    pub open spec fn spec_area(self) -> int {
        (self.c1 - self.c0) * (self.r1 - self.r0)
    }

    /// Whether cell `(row, col)` is inside the rectangle.
    pub open spec fn holds(self, row: int, col: int) -> bool {
        self.r0 <= row < self.r1 && self.c0 <= col < self.c1
    }

    pub open spec fn nonempty(self) -> bool {
        self.c0 < self.c1 && self.r0 < self.r1
    }

    pub fn area(&self) -> (a: i128)
        requires
            self.c0 <= self.c1,
            self.r0 <= self.r1,
        ensures
            a == self.spec_area(),
    {
        let w = self.c1 as i128 - self.c0 as i128;
        let h = self.r1 as i128 - self.r0 as i128;
        assert(0 <= w * h <= 0x1_0000_0000 * 0x1_0000_0000) by (nonlinear_arith)
            requires
                0 <= w <= 0x1_0000_0000,
                0 <= h <= 0x1_0000_0000,
        ;
        w * h
    }
}

/// Row-major order on `(row, col)` cells.
pub open spec fn cell_lt(a: (i32, i32), b: (i32, i32)) -> bool {
    a.0 < b.0 || (a.0 == b.0 && a.1 < b.1)
}

/// A strictly ascending list of `(row, col)` cells, each below
/// `i32::MAX`.
pub open spec fn free_list(free: Seq<(i32, i32)>) -> bool {
    &&& forall|i: int, j: int| 0 <= i < j < free.len() ==> cell_lt(#[trigger] free[i], #[trigger] free[j])
    &&& forall|i: int| 0 <= i < free.len() ==> (#[trigger] free[i]).0 < i32::MAX && free[i].1 < i32::MAX
}

/// Cell `(row, col)` is in the list.
pub open spec fn in_list(free: Seq<(i32, i32)>, row: int, col: int) -> bool {
    exists|k: int| 0 <= k < free.len() && (#[trigger] free[k]).0 == row && free[k].1 == col
}

/// Every cell of the rectangle is in the list.
pub open spec fn all_free(free: Seq<(i32, i32)>, rect: BridgeRect) -> bool {
    forall|row: int, col: int| #[trigger] rect.holds(row, col) ==> in_list(free, row, col)
}

pub fn free_contains(free: &Vec<(i32, i32)>, cell: (i32, i32)) -> (b: bool)
    ensures
        b == free@.contains(cell),
{
    let mut i: usize = 0;
    while i < free.len()
        invariant
            i <= free@.len(),
            forall|k: int| 0 <= k < i ==> free@[k] != cell,
        decreases free@.len() - i,
    {
        if free[i].0 == cell.0 && free[i].1 == cell.1 {
            assert(free@[i as int] == cell);
            return true;
        }
        i = i + 1;
    }
    false
}

/// A non-empty rectangle with its top-left cell at `(row, col)`.
pub open spec fn anchored_at(s: BridgeRect, row: int, col: int) -> bool {
    s.r0 == row && s.c0 == col && s.nonempty()
}

/// Among rectangles with one anchor, `best` is bigger than `s`, or as big
/// and no wider.
pub open spec fn anchored_beats(best: BridgeRect, s: BridgeRect) -> bool {
    s.spec_area() < best.spec_area() || (s.spec_area() == best.spec_area() && best.c1 <= s.c1)
}

/// A `w` by `h` rectangle is no bigger than a `w` by `h2` one when `h <= h2`.
proof fn lemma_area_le(w: int, h: int, h2: int)
    requires
        0 < w,
        h <= h2,
    ensures
        w * h <= w * h2,
{
    assert(w * h <= w * h2) by (nonlinear_arith)
        requires
            0 < w,
            h <= h2,
    ;
}

/// The biggest free rectangle whose top-left cell is `(col, row)`: every
/// width the anchor row allows, paired with the rows that stay free at that
/// width; of two as big, the narrower.
pub fn largest_rect_anchored(free: &Vec<(i32, i32)>, col: i32, row: i32, kind: BridgeKindId) -> (best: BridgeRect)
    requires
        free_list(free@),
        free@.contains((row, col)),
    ensures
        best.c0 == col && best.r0 == row && best.kind == kind,
        best.nonempty(),
        best.c1 <= i32::MAX && best.r1 <= i32::MAX,
        all_free(free@, best),
        forall|s: BridgeRect| anchored_at(s, row as int, col as int) && #[trigger] all_free(free@, s) ==> anchored_beats(best, s),
{
    proof {
        let k = choose|k: int| 0 <= k < free@.len() && free@[k] == (row, col);
        assert(free@[k].0 < i32::MAX);
    }
    let mut best = BridgeRect { c0: col, r0: row, c1: col + 1, r1: row + 1, kind };
    assert(all_free(free@, best)) by {
        assert forall|rr: int, cc: int| best.holds(rr, cc) implies in_list(free@, rr, cc) by {
            assert(rr == row && cc == col);
        }
    }
    let mut r1: i32 = i32::MAX;
    let mut c1: i32 = col + 1;
    let mut best_area: i128 = best.area();
    while free_contains(free, (row, c1 - 1))
        invariant_except_break
            forall|s: BridgeRect|
                anchored_at(s, row as int, col as int) && #[trigger] all_free(free@, s) && s.c1 == c1 - 1 ==> s.r1 <= r1,
            c1 == col + 1 ==> r1 == i32::MAX,
        invariant
            free_list(free@),
            col < c1 <= i32::MAX,
            row < r1 <= i32::MAX,
            forall|cc: int, rr: int| col <= cc < c1 - 1 && row <= rr < r1 ==> #[trigger] in_list(free@, rr, cc),
            best.c0 == col && best.r0 == row && best.kind == kind,
            best.nonempty(),
            best.c1 <= c1,
            best.r1 <= i32::MAX,
            all_free(free@, best),
            best_area == best.spec_area(),
            forall|s: BridgeRect|
                anchored_at(s, row as int, col as int) && #[trigger] all_free(free@, s) && s.c1 < c1 ==> anchored_beats(
                    best,
                    s,
                ),
        ensures
            col < c1 <= i32::MAX,
            best.c0 == col && best.r0 == row && best.kind == kind,
            best.nonempty(),
            best.c1 <= i32::MAX && best.r1 <= i32::MAX,
            all_free(free@, best),
            forall|s: BridgeRect|
                anchored_at(s, row as int, col as int) && #[trigger] all_free(free@, s) && s.c1 < c1 ==> anchored_beats(
                    best,
                    s,
                ),
            !free@.contains((row, (c1 - 1) as i32)) || c1 == i32::MAX,
            c1 == i32::MAX && free@.contains((row, (c1 - 1) as i32)) ==> forall|s: BridgeRect|
                anchored_at(s, row as int, col as int) && #[trigger] all_free(free@, s) ==> anchored_beats(best, s),
        decreases i32::MAX - c1,
    {
        proof {
            let k = choose|k: int| 0 <= k < free@.len() && free@[k] == (row, (c1 - 1) as i32);
            assert(free@[k].1 < i32::MAX);
        }
        let r1_old = r1;
        let mut rows: i32 = row + 1;
        while rows < r1 && free_contains(free, (rows, c1 - 1))
            invariant
                free_list(free@),
                col < c1,
                row < rows <= r1,
                r1 <= i32::MAX,
                forall|rr: int| row <= rr < rows ==> #[trigger] in_list(free@, rr, c1 - 1),
            decreases r1 - rows,
        {
            rows = rows + 1;
        }
        proof {
            assert forall|s: BridgeRect| anchored_at(s, row as int, col as int) && #[trigger] all_free(free@, s) && s.c1
                == c1 implies s.r1 <= rows by {
                if s.c1 - 1 > col {
                    let narrower = BridgeRect { c1: (c1 - 1) as i32, ..s };
                    assert forall|rr: int, cc: int| #[trigger] narrower.holds(rr, cc) implies in_list(free@, rr, cc) by {
                        assert(s.holds(rr, cc));
                    }
                    assert(all_free(free@, narrower));
                    assert(narrower.r1 <= r1_old);
                }
                assert(s.r1 <= r1_old);
                if s.r1 > rows {
                    assert(s.holds(rows as int, c1 - 1));
                    assert(in_list(free@, rows as int, c1 - 1));
                    assert(free@.contains((rows, (c1 - 1) as i32))) by {
                        let k = choose|k: int| 0 <= k < free@.len() && (#[trigger] free@[k]).0 == rows && free@[k].1 == c1 - 1;
                        assert(free@[k] == (rows, (c1 - 1) as i32));
                    }
                }
            }
        }
        r1 = rows;
        let candidate = BridgeRect { c0: col, r0: row, c1, r1, kind };
        assert(all_free(free@, candidate)) by {
            assert forall|rr: int, cc: int| candidate.holds(rr, cc) implies in_list(free@, rr, cc) by {
                if cc < c1 - 1 {
                } else {
                    assert(cc == c1 - 1);
                }
            }
        }
        let area = candidate.area();
        let ghost best_old = best;
        if area > best_area {
            best = candidate;
            best_area = area;
        }
        proof {
            assert forall|s: BridgeRect|
                anchored_at(s, row as int, col as int) && #[trigger] all_free(free@, s) && s.c1 <= c1 implies anchored_beats(
                best,
                s,
            ) by {
                if s.c1 == c1 {
                    lemma_area_le(c1 - col, s.r1 - row, r1 - row);
                } else {
                    assert(anchored_beats(best_old, s));
                }
            }
            assert forall|cc: int, rr: int| col <= cc < c1 && row <= rr < r1 implies #[trigger] in_list(free@, rr, cc) by {
                if cc == c1 - 1 {
                } else {
                }
            }
            let k = choose|k: int| 0 <= k < free@.len() && free@[k] == (row, (c1 - 1) as i32);
            assert(free@[k].1 < i32::MAX);
            if c1 == i32::MAX {
                assert forall|s: BridgeRect| anchored_at(s, row as int, col as int) && #[trigger] all_free(free@, s) implies anchored_beats(
                    best,
                    s,
                ) by {
                    assert(s.c1 <= c1);
                }
            }
        }
        if c1 == i32::MAX {
            break;
        }
        c1 = c1 + 1;
    }
    proof {
        assert forall|s: BridgeRect| anchored_at(s, row as int, col as int) && #[trigger] all_free(free@, s) implies anchored_beats(
            best,
            s,
        ) by {
            if s.c1 >= c1 && !(c1 == i32::MAX && free@.contains((row, (c1 - 1) as i32))) {
                assert(s.holds(row as int, c1 - 1));
                assert(in_list(free@, row as int, c1 - 1));
                let k = choose|k: int| 0 <= k < free@.len() && (#[trigger] free@[k]).0 == row && free@[k].1 == c1 - 1;
                assert(free@[k] == (row, (c1 - 1) as i32));
            }
        }
    }
    best
}

/// The order the merge takes rectangles in: the bigger first, then the
/// earlier top-left cell row-major, then the narrower.
pub open spec fn preferred(r: BridgeRect, s: BridgeRect) -> bool {
    ||| r.spec_area() > s.spec_area()
    ||| r.spec_area() == s.spec_area() && cell_lt((r.r0, r.c0), (s.r0, s.c0))
    ||| r.spec_area() == s.spec_area() && r.r0 == s.r0 && r.c0 == s.c0 && r.c1 <= s.c1
}

/// The top-left cell of `s` is among the first `i` cells of the list.
pub open spec fn anchor_among(free: Seq<(i32, i32)>, s: BridgeRect, i: int) -> bool {
    exists|j: int| 0 <= j < i && #[trigger] free[j] == (s.r0, s.c0)
}

/// The biggest rectangle of free cells; ties go to the earliest row-major
/// anchor, then to the narrower, so the result is deterministic.
pub fn largest_free_rect(free: &Vec<(i32, i32)>, kind: BridgeKindId) -> (best: Option<BridgeRect>)
    requires
        free_list(free@),
    ensures
        best is None <==> free@.len() == 0,
        best matches Some(r) ==> {
            &&& r.kind == kind
            &&& r.nonempty()
            &&& r.c1 <= i32::MAX && r.r1 <= i32::MAX
            &&& all_free(free@, r)
            &&& forall|s: BridgeRect| s.nonempty() && #[trigger] all_free(free@, s) ==> preferred(r, s)
        },
{
    let mut best: Option<BridgeRect> = None;
    let mut best_area: i128 = 0;
    let ghost mut best_at: int = 0;
    let mut i: usize = 0;
    while i < free.len()
        invariant
            i <= free@.len(),
            free_list(free@),
            best is None <==> i == 0,
            best matches Some(r) ==> {
                &&& r.kind == kind
                &&& r.nonempty()
                &&& r.c1 <= i32::MAX && r.r1 <= i32::MAX
                &&& all_free(free@, r)
                &&& best_area == r.spec_area()
                &&& 0 <= best_at < i
                &&& free@[best_at] == (r.r0, r.c0)
                &&& forall|s: BridgeRect|
                    s.nonempty() && #[trigger] all_free(free@, s) && anchor_among(free@, s, i as int) ==> preferred(r, s)
            },
        decreases free@.len() - i,
    {
        let (row, col) = free[i];
        assert(free@.contains((row, col))) by {
            assert(free@[i as int] == (row, col));
        }
        let candidate = largest_rect_anchored(free, col, row, kind);
        let area = candidate.area();
        let ghost old_best = best;
        let ghost old_at = best_at;
        let take = match best {
            None => true,
            Some(_) => area > best_area,
        };
        if take {
            best = Some(candidate);
            best_area = area;
            proof {
                best_at = i as int;
            }
        }
        proof {
            let r = best.unwrap();
            assert forall|s: BridgeRect|
                s.nonempty() && #[trigger] all_free(free@, s) && anchor_among(free@, s, i as int + 1) implies preferred(r, s) by {
                let j = choose|j: int| 0 <= j < i + 1 && #[trigger] free@[j] == (s.r0, s.c0);
                if j < i {
                    assert(anchor_among(free@, s, i as int));
                    let o = old_best.unwrap();
                    assert(preferred(o, s));
                    if !take {
                        assert(r == o);
                    }
                } else {
                    assert(j == i);
                    assert(anchored_at(s, row as int, col as int));
                    assert(anchored_beats(candidate, s));
                    if !take {
                        let o = old_best.unwrap();
                        assert(r == o);
                        assert(cell_lt(free@[old_at], free@[i as int]));
                    }
                }
            }
        }
        i = i + 1;
    }
    proof {
        if best is Some {
            let r = best.unwrap();
            assert forall|s: BridgeRect| s.nonempty() && #[trigger] all_free(free@, s) implies preferred(r, s) by {
                assert(s.holds(s.r0 as int, s.c0 as int));
                assert(in_list(free@, s.r0 as int, s.c0 as int));
                let j = choose|j: int| 0 <= j < free@.len() && (#[trigger] free@[j]).0 == s.r0 && free@[j].1 == s.c0;
                assert(free@[j] == (s.r0, s.c0));
                assert(anchor_among(free@, s, i as int));
            }
        }
    }
    best
}

/// The list without the cells of `rect`.
pub fn remove_rect(free: &Vec<(i32, i32)>, rect: BridgeRect) -> (rest: Vec<(i32, i32)>)
    requires
        free_list(free@),
    ensures
        free_list(rest@),
        forall|row: int, col: int| #[trigger] in_list(rest@, row, col) <==> (in_list(free@, row, col) && !rect.holds(row, col)),
        (rect.nonempty() && in_list(free@, rect.r0 as int, rect.c0 as int)) ==> rest@.len() < free@.len(),
        rest@.len() <= free@.len(),
{
    let mut rest: Vec<(i32, i32)> = Vec::new();
    let mut i: usize = 0;
    let ghost anchor = (rect.r0, rect.c0);
    while i < free.len()
        invariant
            i <= free@.len(),
            anchor == (rect.r0, rect.c0),
            free_list(free@),
            rest@.len() <= i,
            (exists|k: int| 0 <= k < i && free@[k] == anchor) && rect.nonempty() ==> rest@.len() < i,
            forall|a: int| 0 <= a < rest@.len() ==> exists|k: int| 0 <= k < i && #[trigger] rest@[a] == free@[k],
            forall|a: int, b: int| 0 <= a < b < rest@.len() ==> cell_lt(#[trigger] rest@[a], #[trigger] rest@[b]),
            forall|a: int| 0 <= a < rest@.len() ==> !rect.holds((#[trigger] rest@[a]).0 as int, rest@[a].1 as int),
            forall|k: int|
                0 <= k < i && !rect.holds((#[trigger] free@[k]).0 as int, free@[k].1 as int) ==> rest@.contains(
                    free@[k],
                ),
            rest@.len() > 0 ==> exists|k: int| 0 <= k < i && rest@.last() == free@[k] && (forall|j: int| k < j < free@.len() ==> cell_lt(free@[k], #[trigger] free@[j])),
        decreases free@.len() - i,
    {
        let cell = free[i];
        let inside = rect.r0 <= cell.0 && cell.0 < rect.r1 && rect.c0 <= cell.1 && cell.1 < rect.c1;
        proof {
            if cell.0 == anchor.0 && cell.1 == anchor.1 && rect.nonempty() {
                assert(inside);
            }
            if exists|k: int| 0 <= k < i + 1 && free@[k] == anchor {
                let k = choose|k: int| 0 <= k < i + 1 && free@[k] == anchor;
                if k < i {
                    assert(exists|k: int| 0 <= k < i && free@[k] == anchor);
                }
            }
        }
        if !inside {
            let ghost prev = rest@;
            rest.push(cell);
            proof {
                assert forall|a: int, b: int| 0 <= a < b < rest@.len() implies cell_lt(
                    #[trigger] rest@[a],
                    #[trigger] rest@[b],
                ) by {
                    if b == prev.len() {
                        if a < prev.len() - 1 {
                            assert(cell_lt(prev[a], prev.last()));
                        }
                        let k = choose|k: int| 0 <= k < i && prev.last() == free@[k] && (forall|j: int| k < j < free@.len() ==> cell_lt(free@[k], #[trigger] free@[j]));
                        assert(cell_lt(free@[k], free@[i as int]));
                    }
                }
                assert forall|a: int| 0 <= a < rest@.len() implies exists|k: int| 0 <= k < i + 1 && #[trigger] rest@[a] == free@[k] by {
                    if a < prev.len() {
                        let k = choose|k: int| 0 <= k < i && #[trigger] prev[a] == free@[k];
                        assert(rest@[a] == free@[k]);
                    } else {
                        assert(rest@[a] == free@[i as int]);
                    }
                }
                assert forall|k: int|
                    0 <= k < i + 1 && !rect.holds((#[trigger] free@[k]).0 as int, free@[k].1 as int) implies rest@.contains(
                        free@[k],
                    ) by {
                    if k < i {
                        assert(prev.contains(free@[k]));
                        let a = choose|a: int| 0 <= a < prev.len() && prev[a] == free@[k];
                        assert(rest@[a] == free@[k]);
                    } else {
                        assert(rest@[prev.len() as int] == free@[k]);
                    }
                }
                assert(forall|j: int| i < j < free@.len() ==> cell_lt(free@[i as int], #[trigger] free@[j]));
            }
        } else {
            proof {
                if rest@.len() > 0 {
                    let k = choose|k: int| 0 <= k < i && rest@.last() == free@[k] && (forall|j: int| k < j < free@.len() ==> cell_lt(free@[k], #[trigger] free@[j]));
                    assert(k < i + 1);
                }
            }
        }
        i = i + 1;
    }
    proof {
        assert forall|row: int, col: int| #[trigger] in_list(rest@, row, col) <==> (in_list(free@, row, col) && !rect.holds(row, col)) by {
            if in_list(rest@, row, col) {
                let a = choose|a: int| 0 <= a < rest@.len() && (#[trigger] rest@[a]).0 == row && rest@[a].1 == col;
                let k = choose|k: int| 0 <= k < free@.len() && #[trigger] rest@[a] == free@[k];
                assert(free@[k].0 == row && free@[k].1 == col);
            }
            if in_list(free@, row, col) && !rect.holds(row, col) {
                let k = choose|k: int| 0 <= k < free@.len() && (#[trigger] free@[k]).0 == row && free@[k].1 == col;
                assert(!rect.holds(free@[k].0 as int, free@[k].1 as int));
                assert(rest@.contains(free@[k]));
                let a = choose|a: int| 0 <= a < rest@.len() && rest@[a] == free@[k];
                assert(rest@[a].0 == row && rest@[a].1 == col);
            }
        }
        assert forall|a: int| 0 <= a < rest@.len() implies (#[trigger] rest@[a]).0 < i32::MAX && rest@[a].1 < i32::MAX by {
            let k = choose|k: int| 0 <= k < free@.len() && #[trigger] rest@[a] == free@[k];
        }
        if rect.nonempty() && in_list(free@, rect.r0 as int, rect.c0 as int) {
            let k = choose|k: int| 0 <= k < free@.len() && (#[trigger] free@[k]).0 == rect.r0 && free@[k].1 == rect.c0;
            assert(free@[k] == anchor);
        }
    }
    rest
}

/// `rects` are non-empty rectangles of `kind`, pairwise disjoint, made of
/// cells of `cells`.
pub open spec fn rects_within(rects: Seq<BridgeRect>, cells: Seq<(i32, i32)>, kind: BridgeKindId) -> bool {
    &&& forall|k: int| 0 <= k < rects.len() ==> (#[trigger] rects[k]).kind == kind && rects[k].nonempty()
    &&& forall|k: int, row: int, col: int| 0 <= k < rects.len() && #[trigger] rects[k].holds(row, col) ==> in_list(cells, row, col)
    &&& forall|a: int, b: int, row: int, col: int|
        0 <= a < b < rects.len() && #[trigger] rects[a].holds(row, col) ==> !#[trigger] rects[b].holds(row, col)
}

/// Every cell of `cells` is in one of `rects`.
pub open spec fn rects_cover(rects: Seq<BridgeRect>, cells: Seq<(i32, i32)>) -> bool {
    forall|row: int, col: int| #[trigger] in_list(cells, row, col) ==> exists|k: int| 0 <= k < rects.len() && #[trigger] rects[k].holds(row, col)
}

/// Cell `(row, col)` of `cells` that none of the first `k` rectangles
/// holds.
pub open spec fn left_after(cells: Seq<(i32, i32)>, rects: Seq<BridgeRect>, k: int, row: int, col: int) -> bool {
    in_list(cells, row, col) && forall|t: int| 0 <= t < k ==> !#[trigger] rects[t].holds(row, col)
}

/// Every cell of `s` is left after the first `k` rectangles.
pub open spec fn fits_left(cells: Seq<(i32, i32)>, rects: Seq<BridgeRect>, k: int, s: BridgeRect) -> bool {
    forall|row: int, col: int| #[trigger] s.holds(row, col) ==> left_after(cells, rects, k, row, col)
}

/// Each rectangle is the one the merge prefers among all that fit in the
/// cells the earlier ones left.
pub open spec fn taken_greedily(cells: Seq<(i32, i32)>, rects: Seq<BridgeRect>) -> bool {
    forall|k: int, s: BridgeRect|
        0 <= k < rects.len() && s.nonempty() && #[trigger] fits_left(cells, rects, k, s) ==> preferred(rects[k], s)
}

/// Split one kind's cells into rectangles, biggest first: each the one
/// `preferred` picks among what the earlier ones left.
pub fn merge_kind(cells: Vec<(i32, i32)>, kind: BridgeKindId) -> (rects: Vec<BridgeRect>)
    requires
        free_list(cells@),
    ensures
        rects_within(rects@, cells@, kind),
        rects_cover(rects@, cells@),
        taken_greedily(cells@, rects@),
{
    let ghost orig = cells@;
    let mut free: Vec<(i32, i32)> = cells;
    let mut rects: Vec<BridgeRect> = Vec::new();
    loop
        invariant
            orig == cells@,
            free_list(free@),
            free_list(orig),
            forall|row: int, col: int| #[trigger] in_list(free@, row, col) ==> in_list(orig, row, col),
            rects_within(rects@, orig, kind),
            forall|k: int, row: int, col: int| 0 <= k < rects@.len() && #[trigger] rects@[k].holds(row, col) ==> !in_list(free@, row, col),
            forall|row: int, col: int| #[trigger] in_list(orig, row, col) ==> (in_list(free@, row, col) || exists|k: int| 0 <= k < rects@.len() && #[trigger] rects@[k].holds(row, col)),
            forall|row: int, col: int| #[trigger] in_list(free@, row, col) <==> left_after(orig, rects@, rects@.len() as int, row, col),
            taken_greedily(orig, rects@),
        decreases free@.len(),
    {
        match largest_free_rect(&free, kind) {
            None => {
                proof {
                    assert forall|row: int, col: int| #[trigger] in_list(orig, row, col) implies exists|k: int| 0 <= k < rects@.len() && #[trigger] rects@[k].holds(row, col) by {
                        assert(!in_list(free@, row, col));
                    }
                }
                return rects;
            },
            Some(rect) => {
                assert(rect.holds(rect.r0 as int, rect.c0 as int));
                let rest = remove_rect(&free, rect);
                let ghost old_free = free@;
                let ghost old_rects = rects@;
                rects.push(rect);
                free = rest;
                proof {
                    assert forall|k: int, row: int, col: int| 0 <= k < rects@.len() && #[trigger] rects@[k].holds(row, col) implies in_list(orig, row, col) by {
                        if k < old_rects.len() {
                            assert(rects@[k] == old_rects[k]);
                        } else {
                            assert(in_list(old_free, row, col));
                        }
                    }
                    assert forall|a: int, b: int, row: int, col: int|
                        0 <= a < b < rects@.len() && #[trigger] rects@[a].holds(row, col) implies !#[trigger] rects@[b].holds(row, col) by {
                        assert(rects@[a] == old_rects[a]);
                        if b < old_rects.len() {
                            assert(rects@[b] == old_rects[b]);
                        } else {
                            assert(!in_list(old_free, row, col));
                        }
                    }
                    assert forall|k: int| 0 <= k < rects@.len() implies (#[trigger] rects@[k]).kind == kind && rects@[k].nonempty() by {
                        if k < old_rects.len() {
                            assert(rects@[k] == old_rects[k]);
                        }
                    }
                    assert forall|k: int, row: int, col: int| 0 <= k < rects@.len() && #[trigger] rects@[k].holds(row, col) implies !in_list(free@, row, col) by {
                        if k < old_rects.len() {
                            assert(rects@[k] == old_rects[k]);
                        }
                    }
                    let n = old_rects.len() as int;
                    assert forall|row: int, col: int| #[trigger] in_list(free@, row, col) <==> left_after(orig, rects@, n + 1, row, col) by {
                        assert(in_list(old_free, row, col) <==> left_after(orig, old_rects, n, row, col));
                        assert(rects@[n] == rect);
                        if left_after(orig, old_rects, n, row, col) && !rect.holds(row, col) {
                            assert forall|t: int| 0 <= t < n + 1 implies !#[trigger] rects@[t].holds(row, col) by {
                                if t < n {
                                    assert(rects@[t] == old_rects[t]);
                                }
                            }
                        }
                        if left_after(orig, rects@, n + 1, row, col) {
                            assert forall|t: int| 0 <= t < n implies !#[trigger] old_rects[t].holds(row, col) by {
                                assert(rects@[t] == old_rects[t]);
                            }
                            assert(!rects@[n].holds(row, col));
                        }
                    }
                    assert forall|k: int, q: BridgeRect|
                        0 <= k < rects@.len() && q.nonempty() && #[trigger] fits_left(orig, rects@, k, q) implies preferred(rects@[k], q) by {
                        if k < n {
                            assert(rects@[k] == old_rects[k]);
                            assert forall|row: int, col: int| #[trigger] q.holds(row, col) implies left_after(orig, old_rects, k, row, col) by {
                                assert(left_after(orig, rects@, k, row, col));
                                assert forall|t: int| 0 <= t < k implies !#[trigger] old_rects[t].holds(row, col) by {
                                    assert(rects@[t] == old_rects[t]);
                                }
                            }
                            assert(fits_left(orig, old_rects, k, q));
                        } else {
                            assert(k == n);
                            assert(rects@[k] == rect);
                            assert forall|row: int, col: int| #[trigger] q.holds(row, col) implies in_list(old_free, row, col) by {
                                assert(left_after(orig, rects@, k, row, col));
                                assert forall|t: int| 0 <= t < n implies !#[trigger] old_rects[t].holds(row, col) by {
                                    assert(rects@[t] == old_rects[t]);
                                }
                                assert(left_after(orig, old_rects, n, row, col));
                            }
                            assert(all_free(old_free, q));
                        }
                    }
                    assert forall|row: int, col: int| #[trigger] in_list(orig, row, col) implies (in_list(free@, row, col) || exists|k: int| 0 <= k < rects@.len() && #[trigger] rects@[k].holds(row, col)) by {
                        if in_list(old_free, row, col) {
                            if rect.holds(row, col) {
                                assert(rects@[old_rects.len() as int] == rect);
                            }
                        } else {
                            let k = choose|k: int| 0 <= k < old_rects.len() && #[trigger] old_rects[k].holds(row, col);
                            assert(rects@[k] == old_rects[k]);
                        }
                    }
                }
            },
        }
    }
}


/// Add `cell` to an ascending cell list unless it is there already.
pub fn insert_cell(list: &mut Vec<(i32, i32)>, cell: (i32, i32))
    requires
        free_list(old(list)@),
        cell.0 < i32::MAX,
        cell.1 < i32::MAX,
    ensures
        free_list(final(list)@),
        forall|row: int, col: int|
            #[trigger] in_list(final(list)@, row, col) <==> (in_list(old(list)@, row, col) || (row == cell.0 && col
                == cell.1)),
{
    let mut i: usize = 0;
    while i < list.len()
        invariant
            i <= list@.len(),
            list@ == old(list)@,
            free_list(list@),
            forall|k: int| 0 <= k < i ==> cell_lt(#[trigger] list@[k], cell),
        ensures
            i <= list@.len(),
            list@ == old(list)@,
            forall|k: int| 0 <= k < i ==> cell_lt(#[trigger] list@[k], cell),
            i < list@.len() ==> !cell_lt(list@[i as int], cell) && list@[i as int] != cell,
        decreases list@.len() - i,
    {
        let here = list[i];
        if here.0 == cell.0 && here.1 == cell.1 {
            proof {
                assert forall|row: int, col: int|
                    #[trigger] in_list(list@, row, col) <==> (in_list(old(list)@, row, col) || (row == cell.0
                        && col == cell.1)) by {
                    if row == cell.0 && col == cell.1 {
                        assert(list@[i as int].0 == row && list@[i as int].1 == col);
                    }
                }
            }
            return;
        }
        if !(here.0 < cell.0 || (here.0 == cell.0 && here.1 < cell.1)) {
            break;
        }
        i = i + 1;
    }
    let ghost prev = list@;
    proof {
        if i < prev.len() {
            assert(prev[i as int] != cell);
        }
    }
    list.insert(i, cell);
    proof {
        assert forall|a: int, b: int| 0 <= a < b < list@.len() implies cell_lt(#[trigger] list@[a], #[trigger] list@[b]) by {
            if b < i {
            } else if b == i {
            } else if a < i {
                assert(list@[b] == prev[b - 1]);
                if b - 1 > i {
                    assert(cell_lt(prev[i as int], prev[b - 1]));
                }
            } else if a == i {
                assert(list@[b] == prev[b - 1]);
                if b - 1 > i {
                    assert(cell_lt(prev[i as int], prev[b - 1]));
                }
            } else {
                assert(list@[a] == prev[a - 1]);
                assert(list@[b] == prev[b - 1]);
            }
        }
        assert forall|k: int| 0 <= k < list@.len() implies (#[trigger] list@[k]).0 < i32::MAX && list@[k].1 < i32::MAX by {
            if k < i {
            } else if k > i {
                assert(list@[k] == prev[k - 1]);
            }
        }
        assert forall|row: int, col: int|
            #[trigger] in_list(list@, row, col) <==> (in_list(prev, row, col) || (row == cell.0 && col == cell.1)) by {
            if in_list(list@, row, col) {
                let k = choose|k: int| 0 <= k < list@.len() && (#[trigger] list@[k]).0 == row && list@[k].1 == col;
                if k < i {
                    assert(prev[k] == list@[k]);
                } else if k > i {
                    assert(prev[k - 1] == list@[k]);
                }
            }
            if in_list(prev, row, col) {
                let k = choose|k: int| 0 <= k < prev.len() && (#[trigger] prev[k]).0 == row && prev[k].1 == col;
                if k < i {
                    assert(prev[k] == list@[k]);
                } else {
                    assert(prev[k] == list@[k + 1]);
                }
            }
            if row == cell.0 && col == cell.1 {
                assert(list@[i as int] == cell);
            }
        }
    }
}

/// Add `kind` to an ascending kind list unless it is there already.
pub fn insert_kind(kinds: &mut Vec<u16>, kind: u16)
    requires
        forall|a: int, b: int| 0 <= a < b < old(kinds)@.len() ==> old(kinds)@[a] < old(kinds)@[b],
    ensures
        forall|a: int, b: int| 0 <= a < b < final(kinds)@.len() ==> final(kinds)@[a] < final(kinds)@[b],
        forall|k: u16| #[trigger] final(kinds)@.contains(k) <==> (old(kinds)@.contains(k) || k == kind),
{
    let mut i: usize = 0;
    while i < kinds.len()
        invariant
            i <= kinds@.len(),
            kinds@ == old(kinds)@,
            forall|a: int, b: int| 0 <= a < b < kinds@.len() ==> kinds@[a] < kinds@[b],
            forall|k: int| 0 <= k < i ==> #[trigger] kinds@[k] < kind,
        ensures
            i <= kinds@.len(),
            kinds@ == old(kinds)@,
            forall|k: int| 0 <= k < i ==> #[trigger] kinds@[k] < kind,
            i < kinds@.len() ==> kinds@[i as int] > kind,
        decreases kinds@.len() - i,
    {
        if kinds[i] == kind {
            return;
        }
        if kinds[i] > kind {
            break;
        }
        i = i + 1;
    }
    let ghost prev = kinds@;
    kinds.insert(i, kind);
    proof {
        assert forall|a: int, b: int| 0 <= a < b < kinds@.len() implies kinds@[a] < kinds@[b] by {
            if b < i {
            } else if b == i {
            } else if a < i {
                assert(kinds@[b] == prev[b - 1]);
                if b - 1 > i {
                    assert(prev[i as int] < prev[b - 1]);
                }
            } else if a == i {
                assert(kinds@[b] == prev[b - 1]);
                if b - 1 > i {
                    assert(prev[i as int] < prev[b - 1]);
                }
            } else {
                assert(kinds@[a] == prev[a - 1]);
                assert(kinds@[b] == prev[b - 1]);
            }
        }
        assert forall|k: u16| #[trigger] kinds@.contains(k) <==> (prev.contains(k) || k == kind) by {
            if kinds@.contains(k) {
                let x = choose|x: int| 0 <= x < kinds@.len() && kinds@[x] == k;
                if x < i {
                    assert(prev[x] == k);
                } else if x > i {
                    assert(prev[x - 1] == k);
                }
            }
            if prev.contains(k) {
                let x = choose|x: int| 0 <= x < prev.len() && prev[x] == k;
                if x < i {
                    assert(kinds@[x] == k);
                } else {
                    assert(kinds@[x + 1] == k);
                }
            }
            if k == kind {
                assert(kinds@[i as int] == k);
            }
        }
    }
}

/// Cell `(row, col)` of `kind` is among the input cells `(col, row, kind)`.
pub open spec fn input_has(cells: Seq<(i32, i32, BridgeKindId)>, kind: BridgeKindId, row: int, col: int) -> bool {
    exists|i: int|
        0 <= i < cells.len() && (#[trigger] cells[i]).0 == col && cells[i].1 == row && cells[i].2 == kind
}

/// The cells of one kind, as an ascending list.
pub fn cells_of_kind(cells: &[(i32, i32, BridgeKindId)], kind: BridgeKindId) -> (list: Vec<(i32, i32)>)
    requires
        forall|i: int| 0 <= i < cells@.len() ==> (#[trigger] cells@[i]).0 < i32::MAX && cells@[i].1 < i32::MAX,
    ensures
        free_list(list@),
        forall|row: int, col: int| #[trigger] in_list(list@, row, col) <==> input_has(cells@, kind, row, col),
{
    let mut list: Vec<(i32, i32)> = Vec::new();
    let mut i: usize = 0;
    while i < cells.len()
        invariant
            i <= cells@.len(),
            forall|i: int| 0 <= i < cells@.len() ==> (#[trigger] cells@[i]).0 < i32::MAX && cells@[i].1 < i32::MAX,
            free_list(list@),
            forall|row: int, col: int| #[trigger] in_list(list@, row, col) <==> input_has(cells@.take(i as int), kind, row, col),
        decreases cells@.len() - i,
    {
        let (col, row, k) = cells[i];
        let ghost before = list@;
        if k == kind {
            insert_cell(&mut list, (row, col));
        }
        proof {
            let next = cells@.take(i as int + 1);
            let prefix = cells@.take(i as int);
            assert forall|rr: int, cc: int| #[trigger] in_list(list@, rr, cc) <==> input_has(next, kind, rr, cc) by {
                if input_has(next, kind, rr, cc) {
                    let x = choose|x: int| 0 <= x < next.len() && (#[trigger] next[x]).0 == cc && next[x].1 == rr && next[x].2 == kind;
                    if x < i {
                        assert(prefix[x] == next[x]);
                        assert(input_has(prefix, kind, rr, cc));
                    }
                }
                if input_has(prefix, kind, rr, cc) {
                    let x = choose|x: int| 0 <= x < prefix.len() && (#[trigger] prefix[x]).0 == cc && prefix[x].1 == rr && prefix[x].2 == kind;
                    assert(prefix[x] == next[x]);
                }
                if k == kind && rr == row && cc == col {
                    assert(next[i as int] == cells@[i as int]);
                }
            }
        }
        i = i + 1;
    }
    assert(cells@.take(cells@.len() as int) == cells@);
    list
}

/// Some rectangle of the cell's kind holds the cell.
pub open spec fn covered_by(merged: Seq<BridgeRect>, cell: (i32, i32, BridgeKindId)) -> bool {
    exists|k: int| 0 <= k < merged.len() && (#[trigger] merged[k]).kind == cell.2 && merged[k].holds(cell.1 as int, cell.0 as int)
}

/// Cell `(row, col)` of kind `kind` in the input that none of the first
/// `k` merged rectangles of that kind holds.
pub open spec fn kind_left_after(
    cells: Seq<(i32, i32, BridgeKindId)>,
    merged: Seq<BridgeRect>,
    kind: BridgeKindId,
    k: int,
    row: int,
    col: int,
) -> bool {
    &&& input_has(cells, kind, row, col)
    &&& forall|t: int| 0 <= t < k && merged[t].kind == kind ==> !#[trigger] merged[t].holds(row, col)
}

/// Every cell of `s` is left of the kind of the `k`-th merged rectangle
/// after the earlier rectangles of that kind.
pub open spec fn fits_kind_left(cells: Seq<(i32, i32, BridgeKindId)>, merged: Seq<BridgeRect>, k: int, s: BridgeRect) -> bool {
    forall|row: int, col: int| #[trigger] s.holds(row, col) ==> kind_left_after(cells, merged, merged[k].kind, k, row, col)
}

/// Merge the cells of each kind into disjoint rectangles covering exactly
/// those cells, kinds in ascending order and each kind's rectangles biggest
/// first: each the one `preferred` picks among what the earlier ones of its
/// kind left.
pub fn merge_light_bridges(cells: &[(i32, i32, BridgeKindId)]) -> (merged: Vec<BridgeRect>)
    requires
        forall|i: int| 0 <= i < cells@.len() ==> (#[trigger] cells@[i]).0 < i32::MAX && cells@[i].1 < i32::MAX,
    ensures
        forall|k: int| 0 <= k < merged@.len() ==> (#[trigger] merged@[k]).nonempty(),
        forall|k: int, row: int, col: int|
            0 <= k < merged@.len() && #[trigger] merged@[k].holds(row, col) ==> input_has(cells@, merged@[k].kind, row, col),
        forall|a: int, b: int, row: int, col: int|
            0 <= a < b < merged@.len() && merged@[a].kind == merged@[b].kind && #[trigger] merged@[a].holds(row, col)
                ==> !#[trigger] merged@[b].holds(row, col),
        forall|i: int| 0 <= i < cells@.len() ==> covered_by(merged@, #[trigger] cells@[i]),
        forall|a: int, b: int| 0 <= a < b < merged@.len() ==> (#[trigger] merged@[a]).kind.0 <= (#[trigger] merged@[b]).kind.0,
        forall|k: int, s: BridgeRect|
            0 <= k < merged@.len() && s.nonempty() && #[trigger] fits_kind_left(cells@, merged@, k, s) ==> preferred(
                merged@[k],
                s,
            ),
{
    let mut kinds: Vec<u16> = Vec::new();
    let mut i: usize = 0;
    while i < cells.len()
        invariant
            i <= cells@.len(),
            forall|a: int, b: int| 0 <= a < b < kinds@.len() ==> kinds@[a] < kinds@[b],
            forall|k: u16| #[trigger] kinds@.contains(k) <==> exists|x: int| 0 <= x < i && (#[trigger] cells@[x]).2.0 == k,
        decreases cells@.len() - i,
    {
        let ghost before = kinds@;
        insert_kind(&mut kinds, cells[i].2.0);
        proof {
            assert forall|k: u16| #[trigger] kinds@.contains(k) <==> exists|x: int| 0 <= x < i + 1 && (#[trigger] cells@[x]).2.0 == k by {
                if exists|x: int| 0 <= x < i + 1 && (#[trigger] cells@[x]).2.0 == k {
                    let x = choose|x: int| 0 <= x < i + 1 && (#[trigger] cells@[x]).2.0 == k;
                    if x < i {
                        assert(before.contains(k));
                    }
                }
            }
        }
        i = i + 1;
    }
    let mut merged: Vec<BridgeRect> = Vec::new();
    let mut g: usize = 0;
    while g < kinds.len()
        invariant
            g <= kinds@.len(),
            forall|i: int| 0 <= i < cells@.len() ==> (#[trigger] cells@[i]).0 < i32::MAX && cells@[i].1 < i32::MAX,
            forall|a: int, b: int| 0 <= a < b < kinds@.len() ==> kinds@[a] < kinds@[b],
            forall|k: u16| #[trigger] kinds@.contains(k) <==> exists|x: int| 0 <= x < cells@.len() && (#[trigger] cells@[x]).2.0 == k,
            forall|k: int| 0 <= k < merged@.len() ==> (#[trigger] merged@[k]).nonempty(),
            forall|k: int| 0 <= k < merged@.len() ==> exists|x: int| 0 <= x < g && (#[trigger] merged@[k]).kind.0 == kinds@[x],
            forall|k: int, row: int, col: int|
                0 <= k < merged@.len() && #[trigger] merged@[k].holds(row, col) ==> input_has(cells@, merged@[k].kind, row, col),
            forall|a: int, b: int, row: int, col: int|
                0 <= a < b < merged@.len() && merged@[a].kind == merged@[b].kind && #[trigger] merged@[a].holds(row, col)
                    ==> !#[trigger] merged@[b].holds(row, col),
            forall|i: int|
                0 <= i < cells@.len() && (exists|x: int| 0 <= x < g && (#[trigger] cells@[i]).2.0 == kinds@[x]) ==> covered_by(merged@, cells@[i]),
            forall|a: int, b: int| 0 <= a < b < merged@.len() ==> (#[trigger] merged@[a]).kind.0 <= (#[trigger] merged@[b]).kind.0,
            forall|k: int, s: BridgeRect|
                0 <= k < merged@.len() && s.nonempty() && #[trigger] fits_kind_left(cells@, merged@, k, s) ==> preferred(
                    merged@[k],
                    s,
                ),
        decreases kinds@.len() - g,
    {
        let kind = BridgeKindId(kinds[g]);
        let list = cells_of_kind(cells, kind);
        let ghost list_v = list@;
        let rects = merge_kind(list, kind);
        let ghost before = merged@;
        let mut j: usize = 0;
        while j < rects.len()
            invariant
                j <= rects@.len(),
                g < kinds@.len(),
                kind.0 == kinds@[g as int],
                merged@.len() == before.len() + j,
                forall|k: int| 0 <= k < before.len() ==> merged@[k] == before[k],
                forall|k: int| 0 <= k < j ==> merged@[before.len() + k] == rects@[k],
            decreases rects@.len() - j,
        {
            merged.push(rects[j]);
            j = j + 1;
        }
        proof {
            assert forall|k: int| 0 <= k < merged@.len() implies (#[trigger] merged@[k]).nonempty() by {
                if k >= before.len() {
                    assert(merged@[k] == rects@[k - before.len()]);
                    assert(rects@[k - before.len()].nonempty());
                } else {
                    assert(merged@[k] == before[k]);
                }
            }
            assert forall|k: int| 0 <= k < merged@.len() implies exists|x: int| 0 <= x < g + 1 && (#[trigger] merged@[k]).kind.0 == kinds@[x] by {
                if k >= before.len() {
                    assert(merged@[k] == rects@[k - before.len()]);
                    assert(merged@[k].kind.0 == kinds@[g as int]);
                } else {
                    let x = choose|x: int| 0 <= x < g && (#[trigger] before[k]).kind.0 == kinds@[x];
                    assert(merged@[k] == before[k]);
                }
            }
            assert forall|k: int, row: int, col: int|
                0 <= k < merged@.len() && #[trigger] merged@[k].holds(row, col) implies input_has(cells@, merged@[k].kind, row, col) by {
                if k >= before.len() {
                    assert(merged@[k] == rects@[k - before.len()]);
                    assert(in_list(list_v, row, col));
                } else {
                    assert(merged@[k] == before[k]);
                }
            }
            assert forall|a: int, b: int, row: int, col: int|
                0 <= a < b < merged@.len() && merged@[a].kind == merged@[b].kind && #[trigger] merged@[a].holds(row, col)
                    implies !#[trigger] merged@[b].holds(row, col) by {
                if b >= before.len() {
                    assert(merged@[b] == rects@[b - before.len()]);
                    if a >= before.len() {
                        assert(merged@[a] == rects@[a - before.len()]);
                    } else {
                        assert(merged@[a] == before[a]);
                        let x = choose|x: int| 0 <= x < g && (#[trigger] before[a]).kind.0 == kinds@[x];
                        assert(kinds@[x] < kinds@[g as int]);
                    }
                } else {
                    assert(merged@[a] == before[a]);
                    assert(merged@[b] == before[b]);
                }
            }
            assert forall|i: int|
                0 <= i < cells@.len() && (exists|x: int| 0 <= x < g + 1 && (#[trigger] cells@[i]).2.0 == kinds@[x]) implies covered_by(merged@, cells@[i]) by {
                let x = choose|x: int| 0 <= x < g + 1 && (#[trigger] cells@[i]).2.0 == kinds@[x];
                if x < g {
                    assert(covered_by(before, cells@[i]));
                    let k = choose|k: int|
                        0 <= k < before.len() && (#[trigger] before[k]).kind == cells@[i].2 && before[k].holds(
                            cells@[i].1 as int,
                            cells@[i].0 as int,
                        );
                    assert(merged@[k] == before[k]);
                } else {
                    assert(cells@[i].2 == kind);
                    assert(input_has(cells@, kind, cells@[i].1 as int, cells@[i].0 as int));
                    assert(in_list(list_v, cells@[i].1 as int, cells@[i].0 as int));
                    let k = choose|k: int| 0 <= k < rects@.len() && #[trigger] rects@[k].holds(cells@[i].1 as int, cells@[i].0 as int);
                    assert(merged@[before.len() + k] == rects@[k]);
                }
            }
            assert forall|k: int, q: BridgeRect|
                0 <= k < merged@.len() && q.nonempty() && #[trigger] fits_kind_left(cells@, merged@, k, q) implies preferred(
                merged@[k],
                q,
            ) by {
                let n = before.len() as int;
                if k < n {
                    assert(merged@[k] == before[k]);
                    assert forall|row: int, col: int| #[trigger] q.holds(row, col) implies kind_left_after(
                        cells@,
                        before,
                        before[k].kind,
                        k,
                        row,
                        col,
                    ) by {
                        assert(kind_left_after(cells@, merged@, merged@[k].kind, k, row, col));
                        assert forall|t: int| 0 <= t < k && before[t].kind == before[k].kind implies !#[trigger] before[t].holds(
                            row,
                            col,
                        ) by {
                            assert(merged@[t] == before[t]);
                        }
                    }
                    assert(fits_kind_left(cells@, before, k, q));
                } else {
                    let p = k - n;
                    assert(merged@[k] == rects@[p]);
                    assert(rects@[p].kind == kind);
                    assert forall|row: int, col: int| #[trigger] q.holds(row, col) implies left_after(list_v, rects@, p, row, col) by {
                        assert(kind_left_after(cells@, merged@, kind, k, row, col));
                        assert(in_list(list_v, row, col));
                        assert forall|t: int| 0 <= t < p implies !#[trigger] rects@[t].holds(row, col) by {
                            assert(merged@[n + t] == rects@[t]);
                            assert(rects@[t].kind == kind);
                        }
                    }
                    assert(fits_left(list_v, rects@, p, q));
                }
            }
            assert forall|a: int, b: int| 0 <= a < b < merged@.len() implies (#[trigger] merged@[a]).kind.0 <= (#[trigger] merged@[b]).kind.0 by {
                if b >= before.len() {
                    assert(merged@[b] == rects@[b - before.len()]);
                    if a >= before.len() {
                        assert(merged@[a] == rects@[a - before.len()]);
                    } else {
                        assert(merged@[a] == before[a]);
                        let x = choose|x: int| 0 <= x < g && (#[trigger] before[a]).kind.0 == kinds@[x];
                        assert(kinds@[x] < kinds@[g as int]);
                    }
                } else {
                    assert(merged@[a] == before[a]);
                    assert(merged@[b] == before[b]);
                }
            }
        }
        g = g + 1;
    }
    proof {
        assert forall|i: int| 0 <= i < cells@.len() implies covered_by(merged@, #[trigger] cells@[i]) by {
            assert(kinds@.contains(cells@[i].2.0));
            let x = choose|x: int| 0 <= x < kinds@.len() && kinds@[x] == cells@[i].2.0;
            assert(g == kinds@.len());
            assert(0 <= x < g && cells@[i].2.0 == kinds@[x]);
            assert(exists|x: int| 0 <= x < g && (#[trigger] cells@[i]).2.0 == kinds@[x]);
        }
    }
    merged
}

} // verus!
