//! What holds of the switch state machine, the grid lookups and the
//! canonical form across calls and for every input.
use vstd::prelude::*;

use crate::canon::{
    CanonicalOrder, ascending, canonical_of, lemma_canonical_zones_fixed, lemma_normalized_wall_def_fixed,
    level_canonical, lemma_dedup_zones_shape, lemma_stable_sort_settled, normalized_wall_def, same_values,
    zones_distinct_runs, zones_settled,
};
use crate::schema::{LevelDef, MapDef, WallDef};
use crate::floors::{SlabPlan, row_plans, slab_plan, tier_plans};
use crate::edges::{CellSide, edge_on_side};
use crate::grid::{EdgeGrid, PressurePlateRuntime};
use crate::ids::SwitchId;
use crate::plates::fresh_of;
use crate::switches::{
    FireworkTarget, Switch, SwitchHold, SwitchInput, ahead, flip_count, mode_step, reset_step,
    show_due, tick_add, update_step,
};

verus! {

/// A switch that is momentary for the current player count is on after a
/// tick exactly when its plates hold it, whatever it was before and however
/// often its plates were pressed.
pub proof fn law_momentary_follows_hold(sw: Switch, input: SwitchInput, logged_in: int)
    requires
        !sw.config.activation.toggles(logged_in),
    ensures
        update_step(sw, input, logged_in).active == input.occupied,
        flip_count(sw, input, logged_in) == 0,
{
}

/// A switch whose mode changes this tick (a momentary auto switch becoming
/// a toggle as the last partner leaves, or the reverse) starts from whether
/// its plates hold it now, and no press flips it on that tick.
pub proof fn law_mode_change_starts_from_hold(sw: Switch, input: SwitchInput, logged_in: int)
    requires
        sw.config.activation.toggles(logged_in) != sw.toggle,
    ensures
        update_step(sw, input, logged_in).active == input.occupied,
        update_step(sw, input, logged_in).toggle == sw.config.activation.toggles(logged_in),
        flip_count(sw, input, logged_in) == 0,
{
}

/// A toggle switch held by any of its plates flips once per fresh press:
/// an even number of presses leaves it as it was, an odd number flips it,
/// and without a press it keeps its state through any change of hold.
pub proof fn law_toggle_flips_per_press(sw: Switch, input: SwitchInput, logged_in: int)
    requires
        sw.config.activation.toggles(logged_in),
        sw.toggle,
        sw.config.held == SwitchHold::Any,
    ensures
        flip_count(sw, input, logged_in) == input.presses,
        update_step(sw, input, logged_in).active == if input.presses % 2 == 1 {
            !sw.active
        } else {
            sw.active
        },
{
}

/// A toggle switch that takes everyone flips once when the hold begins and
/// not again until the hold is released and taken again: two ticks held in
/// a row flip it once.
pub proof fn law_everyone_toggle_flips_on_rising_hold(sw: Switch, first: SwitchInput, second: SwitchInput, logged_in: int)
    requires
        sw.config.activation.toggles(logged_in),
        sw.toggle,
        sw.config.held == SwitchHold::Everyone,
        first.occupied,
        second.occupied,
    ensures
        update_step(sw, first, logged_in).active == if sw.occupied {
            sw.active
        } else {
            !sw.active
        },
        update_step(update_step(sw, first, logged_in), second, logged_in).active == update_step(
            sw,
            first,
            logged_in,
        ).active,
{
}

/// A death or departure that fires a toggle switch's trigger turns it off,
/// and it stays off on the next tick unless one of its plates is freshly
/// pressed, even while its plates are still held.
pub proof fn law_reset_turns_toggle_off_until_fresh_press(sw: Switch, input: SwitchInput, logged_in: int)
    requires
        sw.config.activation.toggles(logged_in),
    ensures
        !reset_step(sw, input, logged_in, true).0.active,
        reset_step(sw, input, logged_in, true).1,
        !update_step(
            reset_step(sw, input, logged_in, true).0,
            SwitchInput { occupied: input.occupied, presses: 0 },
            logged_in,
        ).active,
{
}

/// A reset leaves a momentary switch following its hold: no death policy
/// turns it off while its plates hold it.
pub proof fn law_reset_ignored_by_momentary(sw: Switch, input: SwitchInput, logged_in: int, fired: bool)
    requires
        !sw.config.activation.toggles(logged_in),
    ensures
        reset_step(sw, input, logged_in, fired).0.active == input.occupied,
        !reset_step(sw, input, logged_in, fired).1,
{
}

/// A trigger that did not fire changes nothing but the mode.
pub proof fn law_unfired_reset_keeps_switch(sw: Switch, input: SwitchInput, logged_in: int)
    ensures
        reset_step(sw, input, logged_in, false).0 == (Switch {
            occupied: if mode_step(sw, logged_in, input.occupied).1 {
                input.occupied
            } else {
                sw.occupied
            },
            ..mode_step(sw, logged_in, input.occupied).0
        }),
        !reset_step(sw, input, logged_in, false).1,
{
}

/// A plate counts as freshly pressed only when it was not held the tick
/// before: when every held plate of a switch was already held, the switch
/// gets no press.
pub proof fn law_no_press_without_new_plate(
    held: Seq<usize>,
    prev: Seq<usize>,
    plates: Seq<PressurePlateRuntime>,
    id: SwitchId,
    n: int,
)
    requires
        0 <= n <= held.len(),
        forall|k: int| 0 <= k < n && plates[held[k] as int].switch == id ==> prev.contains(#[trigger] held[k]),
    ensures
        fresh_of(held, prev, plates, id, n) == 0,
    decreases n,
{
    if n > 0 {
        law_no_press_without_new_plate(held, prev, plates, id, n - 1);
    }
}

/// After a show starts at `tick`, no show starts again before the cooldown
/// has passed, for a cooldown shorter than half the tick counter.
pub proof fn law_fireworks_wait_for_cooldown(
    f: FireworkTarget,
    tick: u32,
    later: u32,
    sws: Seq<Switch>,
    locked: Seq<SwitchId>,
)
    requires
        0 < f.interval_ticks < 0x8000_0000,
        ahead(later, tick) < f.interval_ticks,
    ensures
        !show_due(sws, FireworkTarget { next_show_at: Some(tick_add(tick, f.interval_ticks)), ..f }, later, locked),
{
}

/// Once the cooldown has passed, the show is due again whenever its switch
/// is on and not locked, for up to half the tick counter after.
pub proof fn law_fireworks_due_after_cooldown(
    f: FireworkTarget,
    tick: u32,
    later: u32,
    sws: Seq<Switch>,
    locked: Seq<SwitchId>,
)
    requires
        0 <= f.interval_ticks < 0x8000_0000,
        f.interval_ticks <= ahead(later, tick) <= f.interval_ticks + 0x7fff_ffff,
        !locked.contains(f.switch),
        sws[f.switch.0 as int].active,
    ensures
        show_due(sws, FireworkTarget { next_show_at: Some(tick_add(tick, f.interval_ticks)), ..f }, later, locked),
{
}

/// The edge between two cells one above the other is the south side of the
/// upper cell and the north side of the lower one.
pub proof fn law_shared_horizontal_edge(edges: EdgeGrid, row: int, col: int)
    ensures
        edge_on_side(edges, row, col, CellSide::South) == edge_on_side(edges, row + 1, col, CellSide::North),
{
}

/// The edge between two cells side by side is the east side of the left
/// cell and the west side of the right one.
pub proof fn law_shared_vertical_edge(edges: EdgeGrid, row: int, col: int)
    ensures
        edge_on_side(edges, row, col, CellSide::East) == edge_on_side(edges, row, col + 1, CellSide::West),
{
}

/// A list in canonical order is fixed by its values: two ascending lists
/// with the same values are the same list, so maps that list the same
/// floors, walls, player zones or ramps in any order and with any repeats
/// load the same.
pub proof fn law_canonical_order_is_unique<T: CanonicalOrder>(a: Seq<T>, b: Seq<T>)
    requires
        ascending(a),
        ascending(b),
        same_values(a, b),
    ensures
        a == b,
    decreases a.len(),
{
    if a.len() == 0 {
        if b.len() > 0 {
            assert(b.contains(b[0]));
            assert(a.contains(b[0]));
        }
        assert(a =~= b);
    } else if b.len() == 0 {
        assert(a.contains(a[0]));
    } else {
        assert(a.contains(a[0]));
        assert(b.contains(b[0]));
        assert(a.contains(b[0]));
        if a[0] != b[0] {
            let t = choose|t: int| 0 <= t < b.len() && b[t] == a[0];
            let u = choose|u: int| 0 <= u < a.len() && a[u] == b[0];
            T::lemma_strict_total(a[0], a[0], a[0]);
            T::lemma_strict_total(b[0], b[0], b[0]);
            assert(t > 0 && u > 0);
            assert(b[0].before(b[t]));
            assert(a[0].before(a[u]));
            T::lemma_strict_total(a[0], b[0], a[0]);
        }
        let ra = a.drop_first();
        let rb = b.drop_first();
        assert forall|x: T| #[trigger] ra.contains(x) <==> rb.contains(x) by {
            if ra.contains(x) {
                let t = choose|t: int| 0 <= t < ra.len() && ra[t] == x;
                assert(a[0].before(a[t + 1]));
                T::lemma_strict_total(x, x, x);
                assert(a.contains(x));
                let v = choose|v: int| 0 <= v < b.len() && b[v] == x;
                assert(v != 0);
                assert(rb[v - 1] == x);
            }
            if rb.contains(x) {
                let t = choose|t: int| 0 <= t < rb.len() && rb[t] == x;
                assert(b[0].before(b[t + 1]));
                T::lemma_strict_total(x, x, x);
                assert(b.contains(x));
                assert(a.contains(x));
                let v = choose|v: int| 0 <= v < a.len() && a[v] == x;
                assert(v != 0);
                assert(ra[v - 1] == x);
            }
        }
        assert forall|p: int, q: int| 0 <= p < q < ra.len() implies (#[trigger] ra[p]).before(#[trigger] ra[q]) by {
            assert(a[p + 1].before(a[q + 1]));
        }
        assert forall|p: int, q: int| 0 <= p < q < rb.len() implies (#[trigger] rb[p]).before(#[trigger] rb[q]) by {
            assert(b[p + 1].before(b[q + 1]));
        }
        law_canonical_order_is_unique(ra, rb);
        assert(a =~= seq![a[0]] + ra);
        assert(b =~= seq![b[0]] + rb);
    }
}

proof fn lemma_level_canonical_twice(l0: LevelDef, l1: LevelDef, l2: LevelDef)
    requires
        level_canonical(l0, l1),
        level_canonical(l1, l2),
    ensures
        l2.floors@ == l1.floors@,
        l2.inaccessible_floors@ == l1.inaccessible_floors@,
        l2.walls@ == l1.walls@,
{
    law_canonical_order_is_unique(l2.floors@, l1.floors@);
    law_canonical_order_is_unique(l2.inaccessible_floors@, l1.inaccessible_floors@);
    let n1 = l1.walls@.map_values(|w: WallDef| normalized_wall_def(w));
    let n0 = l0.walls@.map_values(|w: WallDef| normalized_wall_def(w));
    assert forall|x: WallDef| #[trigger] l2.walls@.contains(x) <==> l1.walls@.contains(x) by {
        if l1.walls@.contains(x) {
            let i = choose|i: int| 0 <= i < l1.walls@.len() && l1.walls@[i] == x;
            assert(n0.contains(x));
            let j = choose|j: int| 0 <= j < n0.len() && n0[j] == x;
            lemma_normalized_wall_def_fixed(l0.walls@[j]);
            assert(n1[i] == x);
            assert(n1.contains(x));
        }
        if l2.walls@.contains(x) {
            assert(n1.contains(x));
            let i = choose|i: int| 0 <= i < n1.len() && n1[i] == x;
            let w = l1.walls@[i];
            assert(l1.walls@.contains(w));
            assert(n0.contains(w));
            let j = choose|j: int| 0 <= j < n0.len() && n0[j] == w;
            lemma_normalized_wall_def_fixed(l0.walls@[j]);
        }
    }
    law_canonical_order_is_unique(l2.walls@, l1.walls@);
}

/// Canonical form is a fixed point: putting a map that is already in
/// canonical form into canonical form again leaves every list as it is.
pub proof fn law_canonicalize_is_idempotent(m0: MapDef, m1: MapDef, m2: MapDef)
    requires
        canonical_of(m0, m1),
        canonical_of(m1, m2),
    ensures
        m2.grid_cols == m1.grid_cols,
        m2.grid_rows == m1.grid_rows,
        m2.actor_spawn_zones@ == m1.actor_spawn_zones@,
        m2.player_spawn_zones@ == m1.player_spawn_zones@,
        m2.ramps@ == m1.ramps@,
        m2.items == m1.items,
        m2.pressure_plates == m1.pressure_plates,
        m2.nested_maps == m1.nested_maps,
        m2.levels@.len() == m1.levels@.len(),
        forall|l: int|
            0 <= l < m1.levels@.len() ==> {
                let a = m1.levels@[l];
                let b = #[trigger] m2.levels@[l];
                &&& b.floors@ == a.floors@
                &&& b.inaccessible_floors@ == a.inaccessible_floors@
                &&& b.walls@ == a.walls@
                &&& b.name == a.name
                &&& b.terrain == a.terrain
                &&& b.barriers == a.barriers
                &&& b.light_bridges == a.light_bridges
                &&& b.lights == a.lights
            },
{
    lemma_canonical_zones_fixed(m0.actor_spawn_zones@);
    law_canonical_order_is_unique(m2.player_spawn_zones@, m1.player_spawn_zones@);
    law_canonical_order_is_unique(m2.ramps@, m1.ramps@);
    assert forall|l: int| 0 <= l < m1.levels@.len() implies {
        let a = m1.levels@[l];
        let b = #[trigger] m2.levels@[l];
        &&& b.floors@ == a.floors@
        &&& b.inaccessible_floors@ == a.inaccessible_floors@
        &&& b.walls@ == a.walls@
        &&& b.name == a.name
        &&& b.terrain == a.terrain
        &&& b.barriers == a.barriers
        &&& b.light_bridges == a.light_bridges
        &&& b.lights == a.lights
    } by {
        assert(level_canonical(m0.levels@[l], m1.levels@[l]));
        assert(level_canonical(m1.levels@[l], m2.levels@[l]));
        lemma_level_canonical_twice(m0.levels@[l], m1.levels@[l], m2.levels@[l]);
    }
}

/// In canonical form no actor zone comes before the zone ahead of it, and
/// no two neighbouring zones say the same thing.
pub proof fn law_canonical_actor_zones_sorted(before: MapDef, after: MapDef)
    requires
        canonical_of(before, after),
    ensures
        zones_settled(after.actor_spawn_zones@),
        zones_distinct_runs(after.actor_spawn_zones@),
{
    lemma_stable_sort_settled(before.actor_spawn_zones@);
    lemma_dedup_zones_shape(crate::canon::stable_sort(before.actor_spawn_zones@));
}

/// The plan `p` with no corner filler over an edge of `skip`.
pub open spec fn without_fillers_over(p: SlabPlan, skip: Seq<(i32, i32)>) -> SlabPlan {
    SlabPlan {
        north_filler: if skip.contains((p.row, p.col)) {
            None
        } else {
            p.north_filler
        },
        south_filler: if skip.contains(((p.row + 1) as i32, p.col)) {
            None
        } else {
            p.south_filler
        },
        ..p
    }
}

proof fn lemma_row_landings(mask: Seq<Vec<bool>>, skip: Seq<(i32, i32)>, grid_cols: int, grid_rows: int, r: int, c: int)
    requires
        0 <= r < grid_rows <= i32::MAX,
        c <= grid_cols <= i32::MAX,
    ensures
        row_plans(mask, skip, grid_cols, grid_rows, r, c) == row_plans(mask, Seq::empty(), grid_cols, grid_rows, r, c).map_values(
            |p: SlabPlan| without_fillers_over(p, skip),
        ),
    decreases c,
{
    let f = |p: SlabPlan| without_fillers_over(p, skip);
    if c > 0 {
        lemma_row_landings(mask, skip, grid_cols, grid_rows, r, c - 1);
        let a = slab_plan(mask, skip, grid_cols, grid_rows, r, c - 1);
        let b = slab_plan(mask, Seq::empty(), grid_cols, grid_rows, r, c - 1);
        assert(!Seq::<(i32, i32)>::empty().contains((r as i32, (c - 1) as i32)));
        assert(!Seq::<(i32, i32)>::empty().contains(((r + 1) as i32, (c - 1) as i32)));
        assert(a == f(b));
        let rest = row_plans(mask, Seq::empty(), grid_cols, grid_rows, r, c - 1);
        assert(rest.push(b).map_values(f) =~= rest.map_values(f).push(f(b)));
    } else {
        assert(row_plans(mask, Seq::empty(), grid_cols, grid_rows, r, c).map_values(f) =~= Seq::empty());
    }
}

proof fn lemma_tier_landings(mask: Seq<Vec<bool>>, skip: Seq<(i32, i32)>, grid_cols: int, grid_rows: int, r: int)
    requires
        0 <= grid_cols <= i32::MAX,
        r <= grid_rows <= i32::MAX,
    ensures
        tier_plans(mask, skip, grid_cols, grid_rows, r) == tier_plans(mask, Seq::empty(), grid_cols, grid_rows, r).map_values(
            |p: SlabPlan| without_fillers_over(p, skip),
        ),
    decreases r,
{
    let f = |p: SlabPlan| without_fillers_over(p, skip);
    if r > 0 {
        lemma_tier_landings(mask, skip, grid_cols, grid_rows, r - 1);
        lemma_row_landings(mask, skip, grid_cols, grid_rows, r - 1, grid_cols);
        let a = tier_plans(mask, Seq::empty(), grid_cols, grid_rows, r - 1);
        let b = row_plans(mask, Seq::empty(), grid_cols, grid_rows, r - 1, grid_cols);
        assert((a + b).map_values(f) =~= a.map_values(f) + b.map_values(f));
    } else {
        assert(tier_plans(mask, Seq::empty(), grid_cols, grid_rows, r).map_values(f) =~= Seq::empty());
    }
}

/// Where ramps land changes nothing of a floor tier but its corner
/// fillers: the plans are those without landings, in the same order, each
/// with no filler over an edge a ramp lands on.
pub proof fn law_landings_only_drop_fillers(mask: Seq<Vec<bool>>, skip: Seq<(i32, i32)>, grid_cols: int, grid_rows: int)
    requires
        0 <= grid_cols <= i32::MAX,
        0 <= grid_rows <= i32::MAX,
    ensures
        tier_plans(mask, skip, grid_cols, grid_rows, grid_rows) == tier_plans(
            mask,
            Seq::empty(),
            grid_cols,
            grid_rows,
            grid_rows,
        ).map_values(|p: SlabPlan| without_fillers_over(p, skip)),
{
    lemma_tier_landings(mask, skip, grid_cols, grid_rows, grid_rows);
}

} // verus!
