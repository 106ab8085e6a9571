//! Barrier compilation in grid space: authored one-edge barriers become
//! runs in two passes. `stack_barriers` continues a barrier straight up into
//! the same-kind barrier above it when no floor slab beside the edge splits
//! them, so a floorless storey gap stays closed. `merge_barriers` then joins
//! collinear neighbours with the same storey span.
use vstd::prelude::*;

use crate::ids::{BarrierKindId, SwitchId};

verus! {

/// One authored barrier: its grid edge as `[c0, r0, c1, r1]` and its
/// resolved kind and switch.
#[derive(Clone, Copy, Debug)]
pub struct BarrierEdge {
    pub switch: Option<SwitchId>,
    pub switch_inverted: bool,
    pub edge: [i32; 4],
    pub kind: BarrierKindId,
}

/// Where an edge lies: the horizontal line segment from grid point
/// `(col, row)` to `(col + 1, row)`, or the vertical one from `(col, row)`
/// to `(col, row + 1)`.
#[derive(Clone, Copy, Debug, PartialEq, Eq, Structural)]
pub enum GridEdge {
    Horizontal { row: i32, col: i32 },
    Vertical { row: i32, col: i32 },
}

pub open spec fn spec_grid_edge(edge: [i32; 4]) -> GridEdge {
    if edge[1] == edge[3] {
        GridEdge::Horizontal { row: edge[1], col: if edge[0] <= edge[2] { edge[0] } else { edge[2] } }
    } else {
        GridEdge::Vertical { row: if edge[1] <= edge[3] { edge[1] } else { edge[3] }, col: edge[0] }
    }
}

/// The two cells an edge separates, as `(row, col)`.
pub open spec fn spec_cells_beside(e: GridEdge) -> [(int, int); 2] {
    match e {
        GridEdge::Horizontal { row, col } => [(row - 1, col as int), (row as int, col as int)],
        GridEdge::Vertical { row, col } => [(row as int, col - 1), (row as int, col as int)],
    }
}

impl GridEdge {
    pub fn from_authored(edge: [i32; 4]) -> (e: GridEdge)
        ensures
            e == spec_grid_edge(edge),
    {
        let c0 = edge[0];
        let r0 = edge[1];
        let c1 = edge[2];
        let r1 = edge[3];
        if r0 == r1 {
            GridEdge::Horizontal { row: r0, col: if c0 <= c1 { c0 } else { c1 } }
        } else {
            GridEdge::Vertical { row: if r0 <= r1 { r0 } else { r1 }, col: c0 }
        }
    }

    /// The two cells the edge separates, as `(row, col)`; a grid-border
    /// edge has one outside the grid.
    pub fn cells_beside(self) -> (cells: [(i64, i64); 2])
        ensures
            cells[0].0 == spec_cells_beside(self)[0].0,
            cells[0].1 == spec_cells_beside(self)[0].1,
            cells[1].0 == spec_cells_beside(self)[1].0,
            cells[1].1 == spec_cells_beside(self)[1].1,
    {
        match self {
            GridEdge::Horizontal { row, col } => [(row as i64 - 1, col as i64), (row as i64, col as i64)],
            GridEdge::Vertical { row, col } => [(row as i64, col as i64 - 1), (row as i64, col as i64)],
        }
    }
}

/// Whether the mask marks cell `(row, col)`; cells off the mask are clear.
pub open spec fn mask_marks(mask: Seq<Vec<bool>>, row: int, col: int) -> bool {
    0 <= row < mask.len() && 0 <= col < mask[row]@.len() && mask[row]@[col]
}

/// A floor slab lies on either side of the edge.
pub open spec fn spec_floor_beside(mask: Seq<Vec<bool>>, e: GridEdge) -> bool {
    mask_marks(mask, spec_cells_beside(e)[0].0, spec_cells_beside(e)[0].1) || mask_marks(
        mask,
        spec_cells_beside(e)[1].0,
        spec_cells_beside(e)[1].1,
    )
}

fn mask_get(mask: &Vec<Vec<bool>>, row: i64, col: i64) -> (b: bool)
    ensures
        b == mask_marks(mask@, row as int, col as int),
{
    if row < 0 || col < 0 || row as u64 >= mask.len() as u64 {
        return false;
    }
    let r = &mask[row as usize];
    if col as u64 >= r.len() as u64 {
        return false;
    }
    r[col as usize]
}

pub fn has_floor_beside(slab_mask: &Vec<Vec<bool>>, edge: GridEdge) -> (b: bool)
    ensures
        b == spec_floor_beside(slab_mask@, edge),
{
    let cells = edge.cells_beside();
    mask_get(slab_mask, cells[0].0, cells[0].1) || mask_get(slab_mask, cells[1].0, cells[1].1)
}

/// A run of stacked barriers: the edge and kind of its lowest barrier, the
/// level it starts on and how many storeys it spans.
#[derive(Clone, Copy, Debug)]
pub struct BarrierRun {
    pub switch: Option<SwitchId>,
    pub switch_inverted: bool,
    pub edge: [i32; 4],
    pub level: u8,
    pub levels: u16,
    pub kind: BarrierKindId,
}

/// What makes two barriers one stack: the same grid edge, kind and switch.
pub open spec fn key(b: BarrierEdge) -> (GridEdge, BarrierKindId, Option<SwitchId>, bool) {
    (spec_grid_edge(b.edge), b.kind, b.switch, b.switch_inverted)
}

pub open spec fn run_key(r: BarrierRun) -> (GridEdge, BarrierKindId, Option<SwitchId>, bool) {
    (spec_grid_edge(r.edge), r.kind, r.switch, r.switch_inverted)
}

/// Some barrier of the list has this key.
pub open spec fn has_key(bs: Seq<BarrierEdge>, k: (GridEdge, BarrierKindId, Option<SwitchId>, bool)) -> bool {
    exists|i: int| 0 <= i < bs.len() && key(#[trigger] bs[i]) == k
}

/// No two barriers of one level share a key.
pub open spec fn keys_unique(levels: Seq<Vec<BarrierEdge>>) -> bool {
    forall|l: int, i: int, j: int|
        0 <= l < levels.len() && 0 <= i < j < levels[l]@.len() ==> key(#[trigger] levels[l]@[i]) != key(
            #[trigger] levels[l]@[j],
        )
}

/// A barrier with key `k` on level `l` continues the one below it: the level
/// below has one with the same key and no slab beside the edge at level `l`
/// splits them.
pub open spec fn continues(
    levels: Seq<Vec<BarrierEdge>>,
    masks: Seq<Vec<Vec<bool>>>,
    l: int,
    k: (GridEdge, BarrierKindId, Option<SwitchId>, bool),
) -> bool {
    &&& 0 < l < levels.len()
    &&& has_key(levels[l]@, k)
    &&& has_key(levels[l - 1]@, k)
    &&& !spec_floor_beside(masks[l]@, k.0)
}

/// A stack starting on `l0` with key `k` spans exactly `h` levels: every
/// level after the first continues it, and the level after the last does
/// not (or there is none).
pub open spec fn full_span(
    levels: Seq<Vec<BarrierEdge>>,
    masks: Seq<Vec<Vec<bool>>>,
    l0: int,
    k: (GridEdge, BarrierKindId, Option<SwitchId>, bool),
    h: int,
) -> bool {
    &&& h >= 1
    &&& l0 + h <= levels.len()
    &&& forall|l: int| l0 < l < l0 + h ==> #[trigger] continues(levels, masks, l, k)
    &&& (l0 + h == levels.len() || !continues(levels, masks, l0 + h, k))
}

/// The barriers of level `l`, among its first `j`, that start a stack, with
/// their level.
pub open spec fn level_starts(levels: Seq<Vec<BarrierEdge>>, masks: Seq<Vec<Vec<bool>>>, l: int, j: int) -> Seq<
    (int, BarrierEdge),
>
    decreases j,
{
    if j <= 0 {
        Seq::empty()
    } else {
        let rest = level_starts(levels, masks, l, j - 1);
        let b = levels[l]@[j - 1];
        if continues(levels, masks, l, key(b)) {
            rest
        } else {
            rest.push((l, b))
        }
    }
}

/// The barriers of the first `count` levels that start a stack, level by
/// level and in authored order within a level.
pub open spec fn starts(levels: Seq<Vec<BarrierEdge>>, masks: Seq<Vec<Vec<bool>>>, count: int) -> Seq<
    (int, BarrierEdge),
>
    decreases count,
{
    if count <= 0 {
        Seq::empty()
    } else {
        starts(levels, masks, count - 1) + level_starts(levels, masks, count - 1, levels[count - 1]@.len() as int)
    }
}

/// The run begins with barrier `b` on level `l`.
pub open spec fn run_starts_with(r: BarrierRun, l: int, b: BarrierEdge) -> bool {
    &&& r.level == l
    &&& r.edge == b.edge
    &&& r.kind == b.kind
    &&& r.switch == b.switch
    &&& r.switch_inverted == b.switch_inverted
}


pub type Key = (GridEdge, BarrierKindId, Option<SwitchId>, bool);

pub fn key_of(b: &BarrierEdge) -> (k: Key)
    ensures
        k == key(*b),
{
    (GridEdge::from_authored(b.edge), b.kind, b.switch, b.switch_inverted)
}

pub fn key_eq(a: &Key, b: &Key) -> (eq: bool)
    ensures
        eq == (*a == *b),
{
    let same_switch = match (a.2, b.2) {
        (None, None) => true,
        (Some(x), Some(y)) => x.0 == y.0,
        _ => false,
    };
    a.0 == b.0 && a.1.0 == b.1.0 && same_switch && a.3 == b.3
}

/// The entry of `open` for key `k`, if any.
pub fn lookup(open: &Vec<(Key, usize)>, k: &Key) -> (found: Option<usize>)
    ensures
        found matches Some(i) ==> exists|a: int| 0 <= a < open@.len() && #[trigger] open@[a] == (*k, i),
        found is None ==> forall|a: int| 0 <= a < open@.len() ==> (#[trigger] open@[a]).0 != *k,
{
    let mut a: usize = 0;
    while a < open.len()
        invariant
            a <= open@.len(),
            forall|x: int| 0 <= x < a ==> (#[trigger] open@[x]).0 != *k,
        decreases open@.len() - a,
    {
        if key_eq(&open[a].0, k) {
            let i = open[a].1;
            assert(open@[a as int] == (*k, i));
            return Some(i);
        }
        a = a + 1;
    }
    None
}

/// Where a run ends: the level after its top storey.
pub open spec fn run_end(r: BarrierRun) -> int {
    r.level + r.levels
}

/// The run spans `h` levels so far, every level after the first
/// continuing it, and if it ended below `top`, the level after it does not
/// continue it.
pub open spec fn span_so_far(levels: Seq<Vec<BarrierEdge>>, masks: Seq<Vec<Vec<bool>>>, r: BarrierRun, top: int) -> bool {
    &&& r.levels >= 1
    &&& run_end(r) <= top
    &&& forall|l: int| r.level < l < run_end(r) ==> #[trigger] continues(levels, masks, l, run_key(r))
    &&& (run_end(r) < top ==> !continues(levels, masks, run_end(r), run_key(r)))
}

proof fn lemma_starts_len_bound(levels: Seq<Vec<BarrierEdge>>, masks: Seq<Vec<Vec<bool>>>, l: int, j: int)
    requires
        0 <= j,
    ensures
        level_starts(levels, masks, l, j).len() <= j,
        forall|x: int| 0 <= x < level_starts(levels, masks, l, j).len() ==> (#[trigger] level_starts(levels, masks, l, j)[x]).0 == l,
    decreases j,
{
    if j > 0 {
        lemma_starts_len_bound(levels, masks, l, j - 1);
    }
}

/// The state after the first `l` levels: one run per stack start so far,
/// each spanning what it has reached, and `open` naming, by key, the runs
/// that reach level `l - 1`.
#[verifier::opaque]
pub open spec fn level_done(
    lv: Seq<Vec<BarrierEdge>>,
    ms: Seq<Vec<Vec<bool>>>,
    l: int,
    runs: Seq<BarrierRun>,
    open: Seq<(Key, usize)>,
) -> bool {
    &&& runs.len() == starts(lv, ms, l).len()
    &&& forall|i: int| 0 <= i < runs.len() ==> run_starts_with(#[trigger] runs[i], starts(lv, ms, l)[i].0, starts(lv, ms, l)[i].1)
    &&& forall|i: int| 0 <= i < runs.len() ==> span_so_far(lv, ms, #[trigger] runs[i], l)
    &&& forall|a: int|
        0 <= a < open.len() ==> {
            &&& (#[trigger] open[a]).1 < runs.len()
            &&& run_key(runs[open[a].1 as int]) == open[a].0
            &&& run_end(runs[open[a].1 as int]) == l
            &&& l > 0 && has_key(lv[l - 1]@, open[a].0)
        }
    &&& forall|i: int|
        0 <= i < runs.len() && run_end(#[trigger] runs[i]) == l ==> exists|a: int|
            0 <= a < open.len() && open[a] == (run_key(runs[i]), i as usize)
    &&& forall|a: int, b: int| 0 <= a < b < open.len() ==> (#[trigger] open[a]).0 != (#[trigger] open[b]).0
    &&& l > 0 ==> forall|x: int| 0 <= x < lv[l - 1]@.len() ==> exists|a: int|
        0 <= a < open.len() && (#[trigger] open[a]).0 == key(#[trigger] lv[l - 1]@[x])
}

/// Whether run `o` has been extended while processing the first `j`
/// barriers of level `l`.
pub open spec fn extended(lv: Seq<Vec<BarrierEdge>>, ms: Seq<Vec<Vec<bool>>>, l: int, j: int, o: BarrierRun) -> bool {
    run_end(o) == l && continues(lv, ms, l, run_key(o)) && (exists|x: int|
        0 <= x < j && key(#[trigger] lv[l]@[x]) == run_key(o))
}

/// The state part way through level `l`, after its first `j` barriers:
/// the runs of the levels below, extended where those barriers continue
/// them, then the runs those barriers start; `next` names, in barrier
/// order, the run each of them belongs to.
#[verifier::opaque]
pub open spec fn level_part(
    lv: Seq<Vec<BarrierEdge>>,
    ms: Seq<Vec<Vec<bool>>>,
    l: int,
    j: int,
    before: Seq<BarrierRun>,
    runs: Seq<BarrierRun>,
    next: Seq<(Key, usize)>,
) -> bool {
    &&& runs.len() == before.len() + level_starts(lv, ms, l, j).len()
    &&& forall|i: int|
        0 <= i < before.len() ==> {
            &&& (#[trigger] runs[i]).level == before[i].level
            &&& runs[i].edge == before[i].edge
            &&& runs[i].kind == before[i].kind
            &&& runs[i].switch == before[i].switch
            &&& runs[i].switch_inverted == before[i].switch_inverted
            &&& runs[i].levels as int == before[i].levels + if extended(lv, ms, l, j, before[i]) {
                1int
            } else {
                0int
            }
        }
    &&& forall|i: int|
        before.len() <= i < runs.len() ==> {
            &&& run_starts_with(
                #[trigger] runs[i],
                level_starts(lv, ms, l, j)[i - before.len()].0,
                level_starts(lv, ms, l, j)[i - before.len()].1,
            )
            &&& runs[i].levels == 1
        }
    &&& next.len() == j
    &&& forall|x: int|
        0 <= x < j ==> {
            &&& (#[trigger] next[x]).0 == key(lv[l]@[x])
            &&& next[x].1 < runs.len()
            &&& run_key(runs[next[x].1 as int]) == next[x].0
            &&& run_end(runs[next[x].1 as int]) == l + 1
        }
    &&& forall|i: int| 0 <= i < runs.len() && run_end(#[trigger] runs[i]) == l + 1 ==> exists|x: int| 0 <= x < j && next[x].1 == i
}

proof fn lemma_part_start(lv: Seq<Vec<BarrierEdge>>, ms: Seq<Vec<Vec<bool>>>, l: int, before: Seq<BarrierRun>)
    requires
        0 <= l,
        forall|i: int| 0 <= i < before.len() ==> run_end(#[trigger] before[i]) <= l,
    ensures
        level_part(lv, ms, l, 0, before, before, Seq::empty()),
{
    reveal(level_part);
}

/// Under the state after `l` levels, `open` has key `k` exactly when the
/// level below has a barrier with that key.
proof fn lemma_open_meaning(
    lv: Seq<Vec<BarrierEdge>>,
    ms: Seq<Vec<Vec<bool>>>,
    l: int,
    runs: Seq<BarrierRun>,
    open: Seq<(Key, usize)>,
    k: Key,
)
    requires
        level_done(lv, ms, l, runs, open),
        0 <= l < lv.len(),
    ensures
        (exists|a: int| 0 <= a < open.len() && (#[trigger] open[a]).0 == k) <==> (l > 0 && has_key(lv[l - 1]@, k)),
        forall|a: int| 0 <= a < open.len() && (#[trigger] open[a]).0 == k ==> open[a].1 < runs.len() && run_end(runs[open[a].1 as int]) == l && run_key(runs[open[a].1 as int]) == k,
        forall|a: int, b: int| 0 <= a < b < open.len() ==> (#[trigger] open[a]).0 != (#[trigger] open[b]).0,
        forall|i: int| 0 <= i < runs.len() && run_end(#[trigger] runs[i]) == l ==> exists|a: int| 0 <= a < open.len() && open[a] == (run_key(runs[i]), i as usize),
        forall|i: int| 0 <= i < runs.len() ==> run_end(#[trigger] runs[i]) <= l,
{
    reveal(level_done);
    if l > 0 && has_key(lv[l - 1]@, k) {
        let x = choose|x: int| 0 <= x < lv[l - 1]@.len() && key(#[trigger] lv[l - 1]@[x]) == k;
        assert(exists|a: int| 0 <= a < open.len() && (#[trigger] open[a]).0 == key(lv[l - 1]@[x]));
    }
    assert forall|i: int| 0 <= i < runs.len() implies run_end(#[trigger] runs[i]) <= l by {
        assert(span_so_far(lv, ms, runs[i], l));
    }
}

proof fn lemma_part_step_continue(
    lv: Seq<Vec<BarrierEdge>>,
    ms: Seq<Vec<Vec<bool>>>,
    l: int,
    j: int,
    before: Seq<BarrierRun>,
    open: Seq<(Key, usize)>,
    runs: Seq<BarrierRun>,
    next: Seq<(Key, usize)>,
    idx: usize,
    new_run: BarrierRun,
)
    requires
        0 <= l < lv.len(),
        0 <= j < lv[l]@.len(),
        keys_unique(lv),
        level_done(lv, ms, l, before, open),
        level_part(lv, ms, l, j, before, runs, next),
        continues(lv, ms, l, key(lv[l]@[j])),
        exists|a: int| 0 <= a < open.len() && #[trigger] open[a] == (key(lv[l]@[j]), idx),
        idx < runs.len(),
        before.len() <= usize::MAX,
        new_run == (BarrierRun { levels: (runs[idx as int].levels + 1) as u16, ..runs[idx as int] }),
        runs[idx as int].levels < 0xffff,
    ensures
        level_part(lv, ms, l, j + 1, before, runs.update(idx as int, new_run), next.push((key(lv[l]@[j]), idx))),
        idx < before.len(),
        runs[idx as int].levels == before[idx as int].levels,
{
    reveal(level_part);
    let k = key(lv[l]@[j]);
    lemma_open_meaning(lv, ms, l, before, open, k);
    let a0 = choose|a: int| 0 <= a < open.len() && #[trigger] open[a] == (k, idx);
    assert(open[a0].0 == k);
    assert(idx < before.len());
    let runs2 = runs.update(idx as int, new_run);
    let next2 = next.push((k, idx));
    assert(level_starts(lv, ms, l, j + 1) == level_starts(lv, ms, l, j));
    // no earlier barrier of this level has key k
    assert forall|x: int| 0 <= x < j implies key(#[trigger] lv[l]@[x]) != k by {
        assert(key(lv[l]@[x]) != key(lv[l]@[j]));
    }
    assert(!extended(lv, ms, l, j, before[idx as int]));
    assert(extended(lv, ms, l, j + 1, before[idx as int]));
    assert forall|i: int| 0 <= i < before.len() implies {
        &&& (#[trigger] runs2[i]).level == before[i].level
        &&& runs2[i].edge == before[i].edge
        &&& runs2[i].kind == before[i].kind
        &&& runs2[i].switch == before[i].switch
        &&& runs2[i].switch_inverted == before[i].switch_inverted
        &&& runs2[i].levels as int == before[i].levels + if extended(lv, ms, l, j + 1, before[i]) {
            1int
        } else {
            0int
        }
    } by {
        if i == idx {
            let a0 = choose|a: int| 0 <= a < open.len() && #[trigger] open[a] == (k, idx);
            assert(open[a0].0 == k);
            assert(run_end(before[idx as int]) == l);
            assert(runs2[i] == new_run);
            assert(runs[idx as int].levels == before[idx as int].levels);
            assert(new_run.levels as int == before[idx as int].levels + 1);
            assert(extended(lv, ms, l, j + 1, before[i]));
        } else {
            let o = before[i];
            assert(runs2[i] == runs[i]);
            if extended(lv, ms, l, j + 1, o) && !extended(lv, ms, l, j, o) {
                let x = choose|x: int| 0 <= x < j + 1 && key(#[trigger] lv[l]@[x]) == run_key(o);
                if x < j {
                    assert(extended(lv, ms, l, j, o));
                }
                assert(run_key(o) == k);
                let a = choose|a: int| 0 <= a < open.len() && open[a] == (run_key(o), i as usize);
                let a2 = choose|a2: int| 0 <= a2 < open.len() && #[trigger] open[a2] == (k, idx);
                if a != a2 {
                    assert(open[a].0 != open[a2].0);
                }
            }
            if extended(lv, ms, l, j, o) {
                let x = choose|x: int| 0 <= x < j && key(#[trigger] lv[l]@[x]) == run_key(o);
                assert(extended(lv, ms, l, j + 1, o));
            }
        }
    }
    assert forall|x: int| 0 <= x < j + 1 implies {
        &&& (#[trigger] next2[x]).0 == key(lv[l]@[x])
        &&& next2[x].1 < runs2.len()
        &&& run_key(runs2[next2[x].1 as int]) == next2[x].0
        &&& run_end(runs2[next2[x].1 as int]) == l + 1
    } by {
        if x < j {
            assert(next2[x] == next[x]);
            if next[x].1 == idx {
                assert(run_end(runs[idx as int]) == l + 1);
                assert(runs[idx as int].levels == before[idx as int].levels);
                assert(false);
            }
        }
    }
    assert forall|i: int| 0 <= i < runs2.len() && run_end(#[trigger] runs2[i]) == l + 1 implies exists|x: int| 0 <= x < j + 1 && next2[x].1 == i by {
        if i == idx {
            assert(next2[j].1 == i);
        } else {
            assert(runs2[i] == runs[i]);
            let x = choose|x: int| 0 <= x < j && next[x].1 == i;
            assert(next2[x] == next[x]);
        }
    }
}

proof fn lemma_part_step_start(
    lv: Seq<Vec<BarrierEdge>>,
    ms: Seq<Vec<Vec<bool>>>,
    l: int,
    j: int,
    before: Seq<BarrierRun>,
    open: Seq<(Key, usize)>,
    runs: Seq<BarrierRun>,
    next: Seq<(Key, usize)>,
    new_run: BarrierRun,
    at: usize,
)
    requires
        at == runs.len(),
        0 <= l < lv.len(),
        0 <= j < lv[l]@.len(),
        keys_unique(lv),
        level_done(lv, ms, l, before, open),
        level_part(lv, ms, l, j, before, runs, next),
        !continues(lv, ms, l, key(lv[l]@[j])),
        run_starts_with(new_run, l, lv[l]@[j]),
        new_run.levels == 1,
    ensures
        level_part(lv, ms, l, j + 1, before, runs.push(new_run), next.push((key(lv[l]@[j]), at))),
{
    reveal(level_part);
    let k = key(lv[l]@[j]);
    let runs2 = runs.push(new_run);
    let next2 = next.push((k, at));
    assert(level_starts(lv, ms, l, j + 1) == level_starts(lv, ms, l, j).push((l, lv[l]@[j])));
    assert forall|i: int| 0 <= i < before.len() implies {
        &&& (#[trigger] runs2[i]).level == before[i].level
        &&& runs2[i].edge == before[i].edge
        &&& runs2[i].kind == before[i].kind
        &&& runs2[i].switch == before[i].switch
        &&& runs2[i].switch_inverted == before[i].switch_inverted
        &&& runs2[i].levels as int == before[i].levels + if extended(lv, ms, l, j + 1, before[i]) {
            1int
        } else {
            0int
        }
    } by {
        let o = before[i];
        assert(runs2[i] == runs[i]);
        if extended(lv, ms, l, j + 1, o) {
            let x = choose|x: int| 0 <= x < j + 1 && key(#[trigger] lv[l]@[x]) == run_key(o);
            if x == j {
                assert(continues(lv, ms, l, k));
            }
            assert(extended(lv, ms, l, j, o));
        }
        if extended(lv, ms, l, j, o) {
            let x = choose|x: int| 0 <= x < j && key(#[trigger] lv[l]@[x]) == run_key(o);
            assert(extended(lv, ms, l, j + 1, o));
        }
    }
    assert forall|i: int| before.len() <= i < runs2.len() implies {
        &&& run_starts_with(
            #[trigger] runs2[i],
            level_starts(lv, ms, l, j + 1)[i - before.len()].0,
            level_starts(lv, ms, l, j + 1)[i - before.len()].1,
        )
        &&& runs2[i].levels == 1
    } by {
        if i < runs.len() {
            assert(runs2[i] == runs[i]);
        }
    }
    assert forall|x: int| 0 <= x < j + 1 implies {
        &&& (#[trigger] next2[x]).0 == key(lv[l]@[x])
        &&& next2[x].1 < runs2.len()
        &&& run_key(runs2[next2[x].1 as int]) == next2[x].0
        &&& run_end(runs2[next2[x].1 as int]) == l + 1
    } by {
        if x < j {
            assert(next2[x] == next[x]);
            assert(runs2[next[x].1 as int] == runs[next[x].1 as int]);
        } else {
            assert(runs2[runs.len() as int] == new_run);
        }
    }
    assert forall|i: int| 0 <= i < runs2.len() && run_end(#[trigger] runs2[i]) == l + 1 implies exists|x: int| 0 <= x < j + 1 && next2[x].1 == i by {
        if i == runs.len() {
            assert(next2[j].1 == i);
        } else {
            assert(runs2[i] == runs[i]);
            let x = choose|x: int| 0 <= x < j && next[x].1 == i;
            assert(next2[x] == next[x]);
        }
    }
}

#[verifier::rlimit(60)]
proof fn lemma_level_finish(
    lv: Seq<Vec<BarrierEdge>>,
    ms: Seq<Vec<Vec<bool>>>,
    l: int,
    before: Seq<BarrierRun>,
    open: Seq<(Key, usize)>,
    runs: Seq<BarrierRun>,
    next: Seq<(Key, usize)>,
)
    requires
        0 <= l < lv.len(),
        keys_unique(lv),
        level_done(lv, ms, l, before, open),
        level_part(lv, ms, l, lv[l]@.len() as int, before, runs, next),
    ensures
        level_done(lv, ms, l + 1, runs, next),
{
    reveal(level_done);
    reveal(level_part);
    let n_l = lv[l]@.len() as int;
    let ls = level_starts(lv, ms, l, n_l);
    lemma_starts_len_bound(lv, ms, l, n_l);
    assert(starts(lv, ms, l + 1) == starts(lv, ms, l) + ls);
    assert forall|i: int| 0 <= i < runs.len() implies run_starts_with(
        #[trigger] runs[i],
        starts(lv, ms, l + 1)[i].0,
        starts(lv, ms, l + 1)[i].1,
    ) by {
        if i < before.len() {
            assert(starts(lv, ms, l + 1)[i] == starts(lv, ms, l)[i]);
        } else {
            assert(starts(lv, ms, l + 1)[i] == ls[i - before.len()]);
        }
    }
    assert forall|i: int| 0 <= i < runs.len() implies span_so_far(lv, ms, #[trigger] runs[i], l + 1) by {
        if i < before.len() {
            let o = before[i];
            assert(span_so_far(lv, ms, o, l));
            if run_end(o) == l && continues(lv, ms, l, run_key(o)) {
                let x = choose|x: int| 0 <= x < lv[l]@.len() && key(#[trigger] lv[l]@[x]) == run_key(o);
                assert(extended(lv, ms, l, n_l, o));
            }
            assert forall|q: int| runs[i].level < q < run_end(runs[i]) implies #[trigger] continues(lv, ms, q, run_key(runs[i])) by {
                if q < run_end(o) {
                    assert(continues(lv, ms, q, run_key(o)));
                }
            }
        } else {
            assert(ls[i - before.len()].0 == l);
        }
    }
    assert forall|a: int, b: int| 0 <= a < b < next.len() implies (#[trigger] next[a]).0 != (#[trigger] next[b]).0 by {
        assert(key(lv[l]@[a]) != key(lv[l]@[b]));
    }
    assert forall|a: int| 0 <= a < next.len() implies {
        &&& (#[trigger] next[a]).1 < runs.len()
        &&& run_key(runs[next[a].1 as int]) == next[a].0
        &&& run_end(runs[next[a].1 as int]) == l + 1
        &&& l + 1 > 0 && has_key(lv[l]@, next[a].0)
    } by {
        assert(key(lv[l]@[a]) == next[a].0);
    }
    assert forall|i: int|
        0 <= i < runs.len() && run_end(#[trigger] runs[i]) == l + 1 implies exists|a: int|
            0 <= a < next.len() && next[a] == (run_key(runs[i]), i as usize) by {
        let x = choose|x: int| 0 <= x < n_l && next[x].1 == i;
        assert(next[x] == (run_key(runs[i]), i as usize));
    }
    assert forall|x: int| 0 <= x < lv[l]@.len() implies exists|a: int|
        0 <= a < next.len() && (#[trigger] next[a]).0 == key(#[trigger] lv[l]@[x]) by {
        assert(next[x].0 == key(lv[l]@[x]));
    }
}

/// The storeys the runs span, added up.
pub open spec fn storeys_spanned(runs: Seq<BarrierRun>) -> int
    decreases runs.len(),
{
    if runs.len() == 0 {
        0
    } else {
        storeys_spanned(runs.drop_last()) + runs.last().levels
    }
}

/// How many barriers the levels before `l` hold.
pub open spec fn barriers_before(levels: Seq<Vec<BarrierEdge>>, l: int) -> int
    decreases l,
{
    if l <= 0 {
        0
    } else {
        barriers_before(levels, l - 1) + levels[l - 1]@.len()
    }
}

proof fn lemma_storeys_push(runs: Seq<BarrierRun>, r: BarrierRun)
    ensures
        storeys_spanned(runs.push(r)) == storeys_spanned(runs) + r.levels,
{
    assert(runs.push(r).drop_last() =~= runs);
}

proof fn lemma_storeys_update(runs: Seq<BarrierRun>, i: int, r: BarrierRun)
    requires
        0 <= i < runs.len(),
    ensures
        storeys_spanned(runs.update(i, r)) == storeys_spanned(runs) - runs[i].levels + r.levels,
    decreases runs.len(),
{
    if i < runs.len() - 1 {
        lemma_storeys_update(runs.drop_last(), i, r);
        assert(runs.update(i, r).drop_last() =~= runs.drop_last().update(i, r));
    } else {
        assert(runs.update(i, r).drop_last() =~= runs.drop_last());
    }
}

/// Convert every level's barriers into runs, one per stack of same-key
/// barriers that no floor slab splits. `slab_masks[level]` marks the floor
/// slabs at that level, the ones that would split the storey below from it.
pub fn stack_barriers(levels: &Vec<Vec<BarrierEdge>>, slab_masks: &Vec<Vec<Vec<bool>>>) -> (runs: Vec<BarrierRun>)
    requires
        levels@.len() == slab_masks@.len(),
        levels@.len() <= 256,
        keys_unique(levels@),
    ensures
        runs@.len() == starts(levels@, slab_masks@, levels@.len() as int).len(),
        forall|i: int|
            0 <= i < runs@.len() ==> {
                let s = starts(levels@, slab_masks@, levels@.len() as int)[i];
                &&& run_starts_with(#[trigger] runs@[i], s.0, s.1)
                &&& full_span(levels@, slab_masks@, runs@[i].level as int, run_key(runs@[i]), runs@[i].levels as int)
            },
        storeys_spanned(runs@) == barriers_before(levels@, levels@.len() as int),
{
    let ghost lv = levels@;
    let ghost ms = slab_masks@;
    let mut barriers: Vec<BarrierRun> = Vec::new();
    let mut open: Vec<(Key, usize)> = Vec::new();
    proof {
        reveal(level_done);
    }
    let mut l: usize = 0;
    while l < levels.len()
        invariant
            lv == levels@,
            ms == slab_masks@,
            l <= lv.len(),
            lv.len() == ms.len(),
            lv.len() <= 256,
            keys_unique(lv),
            level_done(lv, ms, l as int, barriers@, open@),
            storeys_spanned(barriers@) == barriers_before(lv, l as int),
        decreases lv.len() - l,
    {
        let level_barriers = &levels[l];
        let mask = &slab_masks[l];
        let ghost before = barriers@;
        let mut new_open: Vec<(Key, usize)> = Vec::new();
        proof {
            lemma_open_meaning(lv, ms, l as int, before, open@, (GridEdge::Horizontal { row: 0, col: 0 }, BarrierKindId(0), None, false));
            lemma_part_start(lv, ms, l as int, before);
        }
        let mut j: usize = 0;
        while j < level_barriers.len()
            invariant
                lv == levels@,
                ms == slab_masks@,
                l < lv.len(),
                lv.len() == ms.len(),
                lv.len() <= 256,
                keys_unique(lv),
                *level_barriers == lv[l as int],
                *mask == ms[l as int],
                j <= level_barriers@.len(),
                level_done(lv, ms, l as int, before, open@),
                level_part(lv, ms, l as int, j as int, before, barriers@, new_open@),
                storeys_spanned(barriers@) == barriers_before(lv, l as int) + j,
            decreases level_barriers@.len() - j,
        {
            let b = &level_barriers[j];
            let k = key_of(b);
            let found = lookup(&open, &k);
            let floor = has_floor_beside(mask, k.0);
            proof {
                lemma_open_meaning(lv, ms, l as int, before, open@, k);
                assert(lv[l as int]@[j as int] == *b);
                assert(has_key(lv[l as int]@, k));
            }
            let continued: Option<usize> = match found {
                Some(index) => if !floor {
                    Some(index)
                } else {
                    None
                },
                None => None,
            };
            match continued {
                Some(index) => {
                    proof {
                        assert(continues(lv, ms, l as int, k));
                        reveal(level_part);
                        reveal(level_done);
                        assert(run_end(before[index as int]) == l);
                        assert(span_so_far(lv, ms, before[index as int], l as int));
                    }
                    let ghost runs0 = barriers@;
                    let ghost next0 = new_open@;
                    let mut run = barriers[index];
                    let _ = barriers.len();
                    proof {
                        assert(before.len() <= runs0.len()) by {
                            reveal(level_part);
                        }
                    }
                    proof {
                        lemma_part_step_continue(lv, ms, l as int, j as int, before, open@, runs0, next0, index, BarrierRun { levels: (run.levels + 1) as u16, ..run });
                    }
                    run.levels = run.levels + 1;
                    proof {
                        lemma_storeys_update(barriers@, index as int, run);
                    }
                    barriers.set(index, run);
                    new_open.push((k, index));
                },
                None => {
                    let new_run = BarrierRun {
                        switch: b.switch,
                        switch_inverted: b.switch_inverted,
                        edge: b.edge,
                        level: l as u8,
                        levels: 1,
                        kind: b.kind,
                    };
                    let index = barriers.len();
                    proof {
                        lemma_part_step_start(lv, ms, l as int, j as int, before, open@, barriers@, new_open@, new_run, index);
                    }
                    proof {
                        lemma_storeys_push(barriers@, new_run);
                    }
                    barriers.push(new_run);
                    new_open.push((k, index));
                },
            }
            j = j + 1;
        }
        proof {
            lemma_level_finish(lv, ms, l as int, before, open@, barriers@, new_open@);
        }
        open = new_open;
        l = l + 1;
    }
    proof {
        reveal(level_done);
        assert forall|i: int| 0 <= i < barriers@.len() implies full_span(lv, ms, barriers@[i].level as int, run_key(#[trigger] barriers@[i]), barriers@[i].levels as int) by {
            assert(span_so_far(lv, ms, barriers@[i], lv.len() as int));
        }
    }
    barriers
}

} // verus!
