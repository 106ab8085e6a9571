//! Pressure plates as switch inputs. Plates are numbered by their position
//! in the map's plate list; `held` lists the plates someone stands on this
//! tick, and a press is fresh when its plate was not held the tick before.
use vstd::prelude::*;

use crate::grid::PressurePlateRuntime;
use crate::ids::{PlayerId, SwitchId};
use crate::switches::{
    ResetCounts, Switch, SwitchHold, SwitchInput, Switches, contains_switch, fired_by, flips, reset_ids, reset_step,
    update_step,
};

verus! {

/// No plate is listed twice.
pub open spec fn no_dup(s: Seq<usize>) -> bool {
    forall|a: int, b: int| 0 <= a < b < s.len() ==> s[a] != s[b]
}

/// Every listed plate exists.
pub open spec fn within(s: Seq<usize>, count: int) -> bool {
    forall|a: int| 0 <= a < s.len() ==> (#[trigger] s[a] as int) < count
}

/// How many of the first `n` plates belong to switch `id`.
pub open spec fn plates_of(plates: Seq<PressurePlateRuntime>, id: SwitchId, n: int) -> int
    decreases n,
{
    if n <= 0 {
        0
    } else {
        plates_of(plates, id, n - 1) + if plates[n - 1].switch == id {
            1int
        } else {
            0int
        }
    }
}

/// How many of the first `n` listed plates belong to switch `id`.
pub open spec fn held_of(held: Seq<usize>, plates: Seq<PressurePlateRuntime>, id: SwitchId, n: int) -> int
    decreases n,
{
    if n <= 0 {
        0
    } else {
        held_of(held, plates, id, n - 1) + if plates[held[n - 1] as int].switch == id {
            1int
        } else {
            0int
        }
    }
}

/// How many of the first `n` listed plates belong to switch `id` and are
/// not in `prev`.
pub open spec fn fresh_of(
    held: Seq<usize>,
    prev: Seq<usize>,
    plates: Seq<PressurePlateRuntime>,
    id: SwitchId,
    n: int,
) -> int
    decreases n,
{
    if n <= 0 {
        0
    } else {
        fresh_of(held, prev, plates, id, n - 1) + if plates[held[n - 1] as int].switch == id && !prev.contains(
            held[n - 1],
        ) {
            1int
        } else {
            0int
        }
    }
}

/// What switch `id`'s plates did this tick, under hold rule `rule`.
pub open spec fn sampled(
    rule: SwitchHold,
    id: SwitchId,
    held: Seq<usize>,
    prev: Seq<usize>,
    plates: Seq<PressurePlateRuntime>,
    alive: int,
) -> SwitchInput {
    SwitchInput {
        occupied: rule.holds(
            plates_of(plates, id, plates.len() as int),
            held_of(held, plates, id, held.len() as int),
            alive,
        ),
        presses: fresh_of(held, prev, plates, id, held.len() as int) as usize,
    }
}

/// The inputs of every switch of `sws`.
pub open spec fn sampled_all(
    sws: Seq<Switch>,
    held: Seq<usize>,
    prev: Seq<usize>,
    plates: Seq<PressurePlateRuntime>,
    alive: int,
) -> Seq<SwitchInput> {
    Seq::new(sws.len(), |i: int| sampled(sws[i].config.held, SwitchId(i as u16), held, prev, plates, alive))
}

pub fn count_plates(plates: &Vec<PressurePlateRuntime>, id: SwitchId) -> (count: usize)
    ensures
        count as int == plates_of(plates@, id, plates@.len() as int),
{
    let mut count: usize = 0;
    let mut k: usize = 0;
    while k < plates.len()
        invariant
            k <= plates@.len(),
            count as int == plates_of(plates@, id, k as int),
            count <= k,
        decreases plates@.len() - k,
    {
        if plates[k].switch.0 == id.0 {
            count = count + 1;
        }
        k = k + 1;
    }
    count
}

pub fn count_held(held: &Vec<usize>, plates: &Vec<PressurePlateRuntime>, id: SwitchId) -> (count: usize)
    requires
        within(held@, plates@.len() as int),
    ensures
        count as int == held_of(held@, plates@, id, held@.len() as int),
{
    let mut count: usize = 0;
    let mut k: usize = 0;
    while k < held.len()
        invariant
            k <= held@.len(),
            within(held@, plates@.len() as int),
            count as int == held_of(held@, plates@, id, k as int),
            count <= k,
        decreases held@.len() - k,
    {
        let idx = held[k];
        assert((held@[k as int] as int) < plates@.len());
        if plates[idx].switch.0 == id.0 {
            count = count + 1;
        }
        k = k + 1;
    }
    count
}

pub fn contains_plate(list: &Vec<usize>, idx: usize) -> (found: bool)
    ensures
        found == list@.contains(idx),
{
    let mut i: usize = 0;
    while i < list.len()
        invariant
            i <= list@.len(),
            forall|j: int| 0 <= j < i ==> list@[j] != idx,
        decreases list@.len() - i,
    {
        if list[i] == idx {
            return true;
        }
        i = i + 1;
    }
    false
}

pub fn count_fresh(held: &Vec<usize>, prev: &Vec<usize>, plates: &Vec<PressurePlateRuntime>, id: SwitchId) -> (count:
    usize)
    requires
        within(held@, plates@.len() as int),
    ensures
        count as int == fresh_of(held@, prev@, plates@, id, held@.len() as int),
{
    let mut count: usize = 0;
    let mut k: usize = 0;
    while k < held.len()
        invariant
            k <= held@.len(),
            within(held@, plates@.len() as int),
            count as int == fresh_of(held@, prev@, plates@, id, k as int),
            count <= k,
        decreases held@.len() - k,
    {
        let idx = held[k];
        assert((held@[k as int] as int) < plates@.len());
        if plates[idx].switch.0 == id.0 && !contains_plate(prev, idx) {
            count = count + 1;
        }
        k = k + 1;
    }
    count
}

/// Whether a switch's plates hold it under `hold`.
pub fn occupied(
    hold: SwitchHold,
    switch: SwitchId,
    held: &Vec<usize>,
    plates: &Vec<PressurePlateRuntime>,
    alive: usize,
) -> (o: bool)
    requires
        within(held@, plates@.len() as int),
    ensures
        o == hold.holds(
            plates_of(plates@, switch, plates@.len() as int),
            held_of(held@, plates@, switch, held@.len() as int),
            alive as int,
        ),
{
    let plate_count = count_plates(plates, switch);
    let held_count = count_held(held, plates, switch);
    hold.is_held(plate_count, held_count, alive)
}

/// Plates of a switch that solves a still-locked quest don't exist for the
/// players yet.
pub fn plate_active(plate: &PressurePlateRuntime, locked: &Vec<SwitchId>) -> (a: bool)
    ensures
        a == !locked@.contains(plate.switch),
{
    !contains_switch(locked, plate.switch)
}

/// How many held plates each of the first `switch_count` switches has.
pub fn held_count_per_switch(held: &Vec<usize>, plates: &Vec<PressurePlateRuntime>, switch_count: u16) -> (counts: Vec<
    usize,
>)
    requires
        within(held@, plates@.len() as int),
    ensures
        counts@.len() == switch_count,
        forall|i: int|
            0 <= i < switch_count ==> #[trigger] counts@[i] as int == held_of(
                held@,
                plates@,
                SwitchId(i as u16),
                held@.len() as int,
            ),
{
    let mut counts: Vec<usize> = Vec::new();
    let mut i: u16 = 0;
    while i < switch_count
        invariant
            i <= switch_count,
            within(held@, plates@.len() as int),
            counts@.len() == i,
            forall|j: int|
                0 <= j < i ==> #[trigger] counts@[j] as int == held_of(held@, plates@, SwitchId(j as u16), held@.len() as int),
        decreases switch_count - i,
    {
        counts.push(count_held(held, plates, SwitchId(i)));
        i = i + 1;
    }
    counts
}

/// Holder `h` stands on a plate of `switch`.
pub open spec fn holds_plate_of(h: (usize, PlayerId), plates: Seq<PressurePlateRuntime>, switch: SwitchId) -> bool {
    (h.0 as int) < plates.len() && plates[h.0 as int].switch == switch
}

/// Who gets credit for turning a switch on: the holder of one of its plates
/// that was not held last tick, else a current holder of one of its
/// plates; `None` when nobody is on a plate of that switch.
pub fn presser_of_switch(
    switch: SwitchId,
    holders: &Vec<(usize, PlayerId)>,
    prev_held: &Vec<usize>,
    plates: &Vec<PressurePlateRuntime>,
) -> (presser: Option<PlayerId>)
    requires
        forall|k: int| 0 <= k < holders@.len() ==> ((#[trigger] holders@[k]).0 as int) < plates@.len(),
    ensures
        presser is None <==> !exists|k: int| 0 <= k < holders@.len() && holds_plate_of(#[trigger] holders@[k], plates@, switch),
        (exists|k: int|
            0 <= k < holders@.len() && holds_plate_of(#[trigger] holders@[k], plates@, switch) && !prev_held@.contains(
                holders@[k].0,
            )) ==> exists|k: int|
            0 <= k < holders@.len() && holds_plate_of(#[trigger] holders@[k], plates@, switch) && !prev_held@.contains(
                holders@[k].0,
            ) && presser == Some(holders@[k].1),
        presser matches Some(p) ==> exists|k: int|
            0 <= k < holders@.len() && holds_plate_of(#[trigger] holders@[k], plates@, switch) && holders@[k].1 == p,
{
    let mut standing: Option<PlayerId> = None;
    let mut k: usize = 0;
    while k < holders.len()
        invariant
            k <= holders@.len(),
            forall|j: int| 0 <= j < holders@.len() ==> ((#[trigger] holders@[j]).0 as int) < plates@.len(),
            forall|j: int|
                0 <= j < k && holds_plate_of(#[trigger] holders@[j], plates@, switch) ==> prev_held@.contains(holders@[j].0),
            standing is None <==> !exists|j: int| 0 <= j < k && holds_plate_of(#[trigger] holders@[j], plates@, switch),
            standing matches Some(p) ==> exists|j: int|
                0 <= j < k && holds_plate_of(#[trigger] holders@[j], plates@, switch) && holders@[j].1 == p,
        decreases holders@.len() - k,
    {
        let (idx, id) = holders[k];
        assert(((holders@[k as int]).0 as int) < plates@.len());
        if plates[idx].switch.0 == switch.0 {
            assert(holds_plate_of(holders@[k as int], plates@, switch));
            if !contains_plate(prev_held, idx) {
                return Some(id);
            }
            standing = Some(id);
        }
        k = k + 1;
    }
    standing
}

proof fn lemma_push_contains(s: Seq<usize>, v: usize)
    ensures
        forall|x: usize| #[trigger] s.push(v).contains(x) <==> s.contains(x) || x == v,
{
    assert forall|x: usize| #[trigger] s.push(v).contains(x) <==> s.contains(x) || x == v by {
        if s.push(v).contains(x) {
            let a = choose|a: int| 0 <= a < s.push(v).len() && s.push(v)[a] == x;
            if a < s.len() {
                assert(s[a] == x);
            }
        }
        if s.contains(x) {
            let a = choose|a: int| 0 <= a < s.len() && s[a] == x;
            assert(s.push(v)[a] == x);
        }
        if x == v {
            assert(s.push(v)[s.len() as int] == x);
        }
    }
}

/// What one tick's occupancy changed: the toggle switches flipped by a
/// fresh press, once per flip, and the plates held on the previous tick.
#[derive(Clone, Debug)]
pub struct PlateEdges {
    pub flipped: Vec<SwitchId>,
    pub prev_held: Vec<usize>,
}

/// The plates held last tick, which is what makes a press fresh.
#[derive(Clone, Debug)]
pub struct PressurePlateInputs {
    pub prev_held: Vec<usize>,
}

impl PressurePlateInputs {
    pub fn new() -> (inputs: PressurePlateInputs)
        ensures
            inputs.prev_held@.len() == 0,
    {
        PressurePlateInputs { prev_held: Vec::new() }
    }

    /// Each switch's input: whether its plates hold it under its rule, and
    /// how many of its plates are held now but were not last tick.
    pub fn sample(&self, switches: &Switches, alive: usize, held: &Vec<usize>, plates: &Vec<PressurePlateRuntime>) -> (inputs:
        Vec<SwitchInput>)
        requires
            switches.wf(),
            within(held@, plates@.len() as int),
        ensures
            inputs@ == sampled_all(switches.switches@, held@, self.prev_held@, plates@, alive as int),
    {
        let rules = switches.hold_rules();
        let mut inputs: Vec<SwitchInput> = Vec::new();
        let mut i: usize = 0;
        while i < rules.len()
            invariant
                i <= rules@.len(),
                rules@.len() == switches.switches@.len(),
                rules@.len() <= 0x1_0000,
                forall|j: int| 0 <= j < rules@.len() ==> #[trigger] rules@[j] == switches.switches@[j].config.held,
                within(held@, plates@.len() as int),
                inputs@.len() == i,
                forall|j: int|
                    0 <= j < i ==> #[trigger] inputs@[j] == sampled(
                        switches.switches@[j].config.held,
                        SwitchId(j as u16),
                        held@,
                        self.prev_held@,
                        plates@,
                        alive as int,
                    ),
            decreases rules@.len() - i,
        {
            let id = SwitchId(i as u16);
            let occupied = occupied(rules[i], id, held, plates, alive);
            let presses = count_fresh(held, &self.prev_held, plates, id);
            inputs.push(SwitchInput { occupied, presses });
            i = i + 1;
        }
        proof {
            assert(inputs@ =~= sampled_all(switches.switches@, held@, self.prev_held@, plates@, alive as int));
        }
        inputs
    }

    /// Advance every switch for this tick's held plates; `held` becomes the
    /// previous tick's set for the next call.
    pub fn update(
        &mut self,
        switches: &mut Switches,
        logged_in: usize,
        alive: usize,
        held: Vec<usize>,
        plates: &Vec<PressurePlateRuntime>,
    ) -> (edges: PlateEdges)
        requires
            old(switches).wf(),
            within(held@, plates@.len() as int),
        ensures
            final(switches).wf(),
            final(switches).same_wiring(old(switches)),
            final(switches).fireworks == old(switches).fireworks,
            final(switches).switches@.len() == old(switches).switches@.len(),
            forall|i: int|
                0 <= i < old(switches).switches@.len() ==> #[trigger] final(switches).switches@[i] == update_step(
                    old(switches).switches@[i],
                    sampled_all(old(switches).switches@, held@, old(self).prev_held@, plates@, alive as int)[i],
                    logged_in as int,
                ),
            edges.flipped@ == flips(
                old(switches).switches@,
                sampled_all(old(switches).switches@, held@, old(self).prev_held@, plates@, alive as int),
                logged_in as int,
                old(switches).switches@.len() as int,
            ),
            edges.prev_held@ == old(self).prev_held@,
            final(self).prev_held@ == held@,
    {
        let inputs = self.sample(switches, alive, &held, plates);
        let flipped = switches.update(logged_in, &inputs);
        let mut prev_held = held;
        std::mem::swap(&mut self.prev_held, &mut prev_held);
        PlateEdges { flipped, prev_held }
    }

    /// A death or departure reset of every switch; the plates held now of
    /// each reset switch count as already pressed, so a reset switch takes
    /// a fresh press before it flips again.
    pub fn reset(
        &mut self,
        switches: &mut Switches,
        resets: &Vec<ResetCounts>,
        logged_in: usize,
        alive: usize,
        held: &Vec<usize>,
        plates: &Vec<PressurePlateRuntime>,
    )
        requires
            old(switches).wf(),
            within(held@, plates@.len() as int),
            within(old(self).prev_held@, plates@.len() as int),
            no_dup(held@),
            no_dup(old(self).prev_held@),
        ensures
            final(switches).wf(),
            final(switches).same_wiring(old(switches)),
            final(switches).fireworks == old(switches).fireworks,
            final(switches).switches@.len() == old(switches).switches@.len(),
            forall|i: int|
                0 <= i < old(switches).switches@.len() ==> #[trigger] final(switches).switches@[i] == reset_step(
                    old(switches).switches@[i],
                    sampled_all(old(switches).switches@, held@, old(self).prev_held@, plates@, alive as int)[i],
                    logged_in as int,
                    fired_by(old(switches).switches@[i].config.reset_on_player_death, resets@),
                ).0,
            no_dup(final(self).prev_held@),
            within(final(self).prev_held@, plates@.len() as int),
            forall|x: usize|
                #[trigger] final(self).prev_held@.contains(x) <==> {
                    let on_reset = (x as int) < plates@.len() && reset_ids(
                        old(switches).switches@,
                        sampled_all(old(switches).switches@, held@, old(self).prev_held@, plates@, alive as int),
                        logged_in as int,
                        resets@,
                        old(switches).switches@.len() as int,
                    ).contains(plates@[x as int].switch);
                    (old(self).prev_held@.contains(x) && !on_reset) || (held@.contains(x) && on_reset)
                },
    {
        let inputs = self.sample(switches, alive, held, plates);
        let reset = switches.reset(resets, logged_in, &inputs);
        let mut next: Vec<usize> = Vec::new();
        let mut k: usize = 0;
        while k < self.prev_held.len()
            invariant
                k <= self.prev_held@.len(),
                self.prev_held@ == old(self).prev_held@,
                within(self.prev_held@, plates@.len() as int),
                no_dup(self.prev_held@),
                no_dup(next@),
                within(next@, plates@.len() as int),
                forall|x: usize|
                    #[trigger] next@.contains(x) <==> exists|j: int|
                        0 <= j < k && self.prev_held@[j] == x && !reset@.contains(plates@[x as int].switch),
            decreases self.prev_held@.len() - k,
        {
            let idx = self.prev_held[k];
            assert((self.prev_held@[k as int] as int) < plates@.len());
            if !contains_switch(&reset, plates[idx].switch) {
                proof {
                    assert forall|a: int| 0 <= a < next@.len() implies next@[a] != idx by {
                        assert(next@.contains(next@[a]));
                    }
                }
                let ghost before = next@;
                next.push(idx);
                proof {
                    lemma_push_contains(before, idx);
                    assert forall|x: usize| #[trigger] next@.contains(x) <==> exists|j: int|
                        0 <= j < k + 1 && self.prev_held@[j] == x && !reset@.contains(plates@[x as int].switch) by {
                        assert(next@.contains(x) <==> before.contains(x) || x == idx);
                        if x == idx {
                            assert(self.prev_held@[k as int] == x);
                        }
                    }
                }
            }
            k = k + 1;
        }
        let ghost kept = next@;
        let mut h: usize = 0;
        while h < held.len()
            invariant
                h <= held@.len(),
                within(held@, plates@.len() as int),
                no_dup(held@),
                no_dup(next@),
                within(next@, plates@.len() as int),
                forall|x: usize|
                    #[trigger] next@.contains(x) <==> kept.contains(x) || exists|j: int|
                        0 <= j < h && held@[j] == x && reset@.contains(plates@[x as int].switch),
                forall|x: usize| #[trigger] kept.contains(x) ==> (x as int) < plates@.len() && !reset@.contains(plates@[x as int].switch),
            decreases held@.len() - h,
        {
            let idx = held[h];
            assert((held@[h as int] as int) < plates@.len());
            if contains_switch(&reset, plates[idx].switch) {
                proof {
                    assert forall|a: int| 0 <= a < next@.len() implies next@[a] != idx by {
                        assert(next@.contains(next@[a]));
                        if next@[a] == idx {
                            if kept.contains(idx) {
                            } else {
                                let j = choose|j: int| 0 <= j < h && held@[j] == idx && reset@.contains(plates@[idx as int].switch);
                                assert(held@[j] == held@[h as int]);
                            }
                        }
                    }
                }
                let ghost before = next@;
                next.push(idx);
                proof {
                    lemma_push_contains(before, idx);
                    assert forall|x: usize| #[trigger] next@.contains(x) <==> kept.contains(x) || exists|j: int|
                        0 <= j < h + 1 && held@[j] == x && reset@.contains(plates@[x as int].switch) by {
                        assert(next@.contains(x) <==> before.contains(x) || x == idx);
                        if x == idx {
                            assert(held@[h as int] == x);
                        }
                    }
                }
            }
            h = h + 1;
        }
        proof {
            assert forall|x: usize| #[trigger] next@.contains(x) <==> {
                let on_reset = (x as int) < plates@.len() && reset@.contains(plates@[x as int].switch);
                (old(self).prev_held@.contains(x) && !on_reset) || (held@.contains(x) && on_reset)
            } by {
                if old(self).prev_held@.contains(x) {
                    let j = choose|j: int| 0 <= j < old(self).prev_held@.len() && old(self).prev_held@[j] == x;
                    assert((old(self).prev_held@[j] as int) < plates@.len());
                }
                if held@.contains(x) {
                    let j = choose|j: int| 0 <= j < held@.len() && held@[j] == x;
                    assert((held@[j] as int) < plates@.len());
                }
            }
        }
        self.prev_held = next;
    }
}

/// Whether this tick brings a press cue (a plate held now that was not) and
/// a release cue (a plate held before that is not now).
pub fn plate_cues(held: &Vec<usize>, prev_held: &Vec<usize>) -> (cues: (bool, bool))
    ensures
        cues.0 == exists|j: int| 0 <= j < held@.len() && !prev_held@.contains(#[trigger] held@[j]),
        cues.1 == exists|j: int| 0 <= j < prev_held@.len() && !held@.contains(#[trigger] prev_held@[j]),
{
    (some_missing(held, prev_held), some_missing(prev_held, held))
}

/// Some entry of `a` is not in `b`.
fn some_missing(a: &Vec<usize>, b: &Vec<usize>) -> (m: bool)
    ensures
        m == exists|j: int| 0 <= j < a@.len() && !b@.contains(#[trigger] a@[j]),
{
    let mut j: usize = 0;
    while j < a.len()
        invariant
            j <= a@.len(),
            forall|x: int| 0 <= x < j ==> b@.contains(#[trigger] a@[x]),
        decreases a@.len() - j,
    {
        if !contains_plate(b, a[j]) {
            return true;
        }
        j = j + 1;
    }
    false
}

/// The feed lines of one tick: each switch turned on with the player
/// credited, and each switch turned off by a press or a release.
#[derive(Clone, Debug)]
pub struct FeedLines {
    pub on: Vec<(SwitchId, PlayerId)>,
    pub off: Vec<SwitchId>,
}

/// Switch `s` has a holder among `holders`.
pub open spec fn has_holder(holders: Seq<(usize, PlayerId)>, plates: Seq<PressurePlateRuntime>, s: SwitchId) -> bool {
    exists|k: int| 0 <= k < holders.len() && holds_plate_of(#[trigger] holders[k], plates, s)
}

/// The switches of `after` not in `before` that someone holds, in order.
pub open spec fn credited_ons(
    before: Seq<SwitchId>,
    after: Seq<SwitchId>,
    holders: Seq<(usize, PlayerId)>,
    plates: Seq<PressurePlateRuntime>,
    n: int,
) -> Seq<SwitchId>
    decreases n,
{
    if n <= 0 {
        Seq::empty()
    } else {
        let rest = credited_ons(before, after, holders, plates, n - 1);
        let s = after[n - 1];
        if !before.contains(s) && has_holder(holders, plates, s) {
            rest.push(s)
        } else {
            rest
        }
    }
}

/// The switches of `before` not in `after` that went off by a flip or with
/// fewer of their plates held than last tick, in order.
pub open spec fn announced_offs(
    before: Seq<SwitchId>,
    after: Seq<SwitchId>,
    flipped: Seq<SwitchId>,
    held: Seq<usize>,
    prev_held: Seq<usize>,
    plates: Seq<PressurePlateRuntime>,
    n: int,
) -> Seq<SwitchId>
    decreases n,
{
    if n <= 0 {
        Seq::empty()
    } else {
        let rest = announced_offs(before, after, flipped, held, prev_held, plates, n - 1);
        let s = before[n - 1];
        if !after.contains(s) && (flipped.contains(s) || held_of(held, plates, s, held.len() as int) < held_of(
            prev_held,
            plates,
            s,
            prev_held.len() as int,
        )) {
            rest.push(s)
        } else {
            rest
        }
    }
}

/// The feed lines for a change of the active switches from `before` to
/// `after`. A switch turned on is credited to the holder of a freshly
/// pressed plate of it if there is one, else to a holder of one of its
/// plates, and gets no line when nobody holds one. A switch turned off gets
/// a line when a press flipped it or fewer of its plates are held than
/// last tick.
pub fn feed_lines(
    before: &Vec<SwitchId>,
    after: &Vec<SwitchId>,
    holders: &Vec<(usize, PlayerId)>,
    held: &Vec<usize>,
    edges: &PlateEdges,
    plates: &Vec<PressurePlateRuntime>,
) -> (lines: FeedLines)
    requires
        forall|k: int| 0 <= k < holders@.len() ==> ((#[trigger] holders@[k]).0 as int) < plates@.len(),
        within(held@, plates@.len() as int),
        within(edges.prev_held@, plates@.len() as int),
    ensures
        lines.on@.len() == credited_ons(before@, after@, holders@, plates@, after@.len() as int).len(),
        forall|k: int|
            0 <= k < lines.on@.len() ==> (#[trigger] lines.on@[k]).0 == credited_ons(
                before@,
                after@,
                holders@,
                plates@,
                after@.len() as int,
            )[k] && exists|h: int|
                0 <= h < holders@.len() && holds_plate_of(#[trigger] holders@[h], plates@, lines.on@[k].0) && holders@[h].1
                    == lines.on@[k].1,
        lines.off@ == announced_offs(
            before@,
            after@,
            edges.flipped@,
            held@,
            edges.prev_held@,
            plates@,
            before@.len() as int,
        ),
{
    let mut on: Vec<(SwitchId, PlayerId)> = Vec::new();
    let mut i: usize = 0;
    while i < after.len()
        invariant
            i <= after@.len(),
            forall|k: int| 0 <= k < holders@.len() ==> ((#[trigger] holders@[k]).0 as int) < plates@.len(),
            on@.len() == credited_ons(before@, after@, holders@, plates@, i as int).len(),
            forall|k: int|
                0 <= k < on@.len() ==> (#[trigger] on@[k]).0 == credited_ons(before@, after@, holders@, plates@, i as int)[k]
                    && exists|h: int|
                    0 <= h < holders@.len() && holds_plate_of(#[trigger] holders@[h], plates@, on@[k].0) && holders@[h].1
                        == on@[k].1,
        decreases after@.len() - i,
    {
        let s = after[i];
        if !contains_switch(before, s) {
            match presser_of_switch(s, holders, &edges.prev_held, plates) {
                Some(p) => {
                    on.push((s, p));
                },
                None => {},
            }
        }
        proof {
            let prev = credited_ons(before@, after@, holders@, plates@, i as int);
            assert(credited_ons(before@, after@, holders@, plates@, i + 1) == if !before@.contains(s) && has_holder(
                holders@,
                plates@,
                s,
            ) {
                prev.push(s)
            } else {
                prev
            });
        }
        i = i + 1;
    }
    let mut off: Vec<SwitchId> = Vec::new();
    let mut j: usize = 0;
    while j < before.len()
        invariant
            j <= before@.len(),
            within(held@, plates@.len() as int),
            within(edges.prev_held@, plates@.len() as int),
            off@ == announced_offs(before@, after@, edges.flipped@, held@, edges.prev_held@, plates@, j as int),
        decreases before@.len() - j,
    {
        let s = before[j];
        if !contains_switch(after, s) {
            let held_now = count_held(held, plates, s);
            let held_before = count_held(&edges.prev_held, plates, s);
            if contains_switch(&edges.flipped, s) || held_now < held_before {
                off.push(s);
            }
        }
        j = j + 1;
    }
    FeedLines { on, off }
}

/// A player as the plates see them: which carrier's frame they are in,
/// whether they take part (logged in and alive), and which plates they
/// stand on, by plate index.
#[derive(Clone, Debug)]
pub struct PlateVisitor {
    pub id: PlayerId,
    pub carrier: u16,
    pub present: bool,
    pub on: Vec<bool>,
}

/// Player `v` can hold plate `i`: they take part, stand on it in its own
/// carrier's frame, and its switch is not locked.
pub open spec fn can_hold(v: PlateVisitor, plates: Seq<PressurePlateRuntime>, locked: Seq<SwitchId>, i: int) -> bool {
    &&& v.present
    &&& 0 <= i < plates.len()
    &&& i < v.on@.len() && v.on@[i]
    &&& plates[i].carrier.0 == v.carrier
    &&& !locked.contains(plates[i].switch)
}

/// Plate `i` is held in `holders`.
pub open spec fn plate_taken(holders: Seq<(usize, PlayerId)>, i: int) -> bool {
    exists|t: int| 0 <= t < holders.len() && (#[trigger] holders[t]).0 == i
}

/// What player `v` takes among the first `k` plates, after `before`: each
/// plate they can hold that nobody holds yet, in plate order.
pub open spec fn visitor_picks(
    v: PlateVisitor,
    plates: Seq<PressurePlateRuntime>,
    locked: Seq<SwitchId>,
    before: Seq<(usize, PlayerId)>,
    k: int,
) -> Seq<(usize, PlayerId)>
    decreases k,
{
    if k <= 0 {
        Seq::empty()
    } else {
        let rest = visitor_picks(v, plates, locked, before, k - 1);
        if can_hold(v, plates, locked, k - 1) && !plate_taken(before, k - 1) {
            rest.push(((k - 1) as usize, v.id))
        } else {
            rest
        }
    }
}

/// The holders once the first `p` players took their plates, in turn.
pub open spec fn holders_after(
    players: Seq<PlateVisitor>,
    plates: Seq<PressurePlateRuntime>,
    locked: Seq<SwitchId>,
    p: int,
) -> Seq<(usize, PlayerId)>
    decreases p,
{
    if p <= 0 {
        Seq::empty()
    } else {
        let before = holders_after(players, plates, locked, p - 1);
        before + visitor_picks(players[p - 1], plates, locked, before, plates.len() as int)
    }
}

fn taken(holders: &Vec<(usize, PlayerId)>, i: usize) -> (b: bool)
    ensures
        b == plate_taken(holders@, i as int),
{
    let mut t: usize = 0;
    while t < holders.len()
        invariant
            t <= holders@.len(),
            forall|u: int| 0 <= u < t ==> (#[trigger] holders@[u]).0 != i,
        decreases holders@.len() - t,
    {
        if holders[t].0 == i {
            return true;
        }
        t = t + 1;
    }
    false
}

/// Who holds which plate: each player in turn takes every plate they stand
/// on, in their own carrier's frame, whose switch is not locked and that no
/// earlier player holds.
pub fn plate_holders(players: &Vec<PlateVisitor>, plates: &Vec<PressurePlateRuntime>, locked: &Vec<SwitchId>) -> (holders:
    Vec<(usize, PlayerId)>)
    ensures
        holders@ == holders_after(players@, plates@, locked@, players@.len() as int),
{
    let mut holders: Vec<(usize, PlayerId)> = Vec::new();
    let mut p: usize = 0;
    while p < players.len()
        invariant
            p <= players@.len(),
            holders@ == holders_after(players@, plates@, locked@, p as int),
        decreases players@.len() - p,
    {
        let v = &players[p];
        let ghost before = holders@;
        let mut i: usize = 0;
        while i < plates.len()
            invariant
                i <= plates@.len(),
                *v == players@[p as int],
                before == holders_after(players@, plates@, locked@, p as int),
                holders@ == before + visitor_picks(*v, plates@, locked@, before, i as int),
                forall|t: int| 0 <= t < holders@.len() - before.len() ==> (#[trigger] holders@[before.len() + t]).0 < i,
            decreases plates@.len() - i,
        {
            let ghost picks = visitor_picks(*v, plates@, locked@, before, i as int);
            let stands = i < v.on.len() && v.on[i];
            if v.present && stands && plates[i].carrier.0 == v.carrier && plate_active(&plates[i], locked) {
                let already = taken(&holders, i);
                proof {
                    assert(plate_taken(holders@, i as int) == plate_taken(before, i as int)) by {
                        if plate_taken(holders@, i as int) {
                            let t = choose|t: int| 0 <= t < holders@.len() && (#[trigger] holders@[t]).0 == i;
                            if t >= before.len() {
                                assert(holders@[before.len() + (t - before.len())].0 < i);
                            } else {
                                assert(before[t] == holders@[t]);
                            }
                        }
                        if plate_taken(before, i as int) {
                            let t = choose|t: int| 0 <= t < before.len() && (#[trigger] before[t]).0 == i;
                            assert(holders@[t] == before[t]);
                        }
                    }
                }
                if !already {
                    holders.push((i, v.id));
                    proof {
                        assert(holders@ =~= before + picks.push((i, v.id)));
                    }
                }
            }
            proof {
                assert(holders@ =~= before + visitor_picks(*v, plates@, locked@, before, i + 1));
            }
            i = i + 1;
        }
        p = p + 1;
    }
    holders
}

} // verus!
