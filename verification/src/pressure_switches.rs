//! The switches of a map as its plates drive them: each switch opens the
//! barrier kinds and powers the bridge kinds wired to it while it is on.
use vstd::prelude::*;

use crate::grid::PressurePlateRuntime;
use crate::ids::{BarrierKindId, BridgeKindId, CarrierId, SwitchId};
use crate::tree::CarrierRecord;
use crate::plates::{PlateEdges, PressurePlateInputs, no_dup, sampled_all, within};
use crate::switches::{
    FireworkTarget, FireworksSchedule, ResetCounts, SwitchDef, Switches, active_ids, fired_by, flips, reset_step,
    show_due, tick_add, update_step,
};
use crate::tables::{NameTable, name_index};

verus! {

/// A barrier or bridge kind of the settings and the switch it is wired to.
#[derive(Clone, Debug)]
pub struct KindDef {
    pub id: String,
    pub switch: Option<String>,
}

/// The switch a kind names, by number, if it names one.
pub open spec fn kind_switch(table: Seq<String>, k: KindDef) -> Option<int> {
    match k.switch {
        Some(name) => name_index(table, name@),
        None => None,
    }
}

/// The kinds among the first `n` wired to switch `s`, by number, in order.
pub open spec fn wired_kinds(kinds: Seq<KindDef>, table: Seq<String>, s: int, n: int) -> Seq<u16>
    decreases n,
{
    if n <= 0 {
        Seq::empty()
    } else {
        let rest = wired_kinds(kinds, table, s, n - 1);
        if kind_switch(table, kinds[n - 1]) == Some(s) {
            rest.push((n - 1) as u16)
        } else {
            rest
        }
    }
}

/// The carriers among the first `n` records that name a switch, each with
/// that switch: carrier `i + 1` for record `i`, in order.
pub open spec fn wired_carriers(records: Seq<CarrierRecord>, n: int) -> Seq<(CarrierId, SwitchId)>
    decreases n,
{
    if n <= 0 {
        Seq::empty()
    } else {
        let rest = wired_carriers(records, n - 1);
        match records[n - 1].switch {
            Some(s) => rest.push((CarrierId(n as u16), s)),
            None => rest,
        }
    }
}

/// What the clients see of the switches: those on, the barrier kinds open
/// and the bridge kinds powered, each ascending, and every carrier wired to
/// a switch with whether that switch runs it.
#[derive(Clone, Debug)]
pub struct PlateState {
    pub active_switches: Vec<SwitchId>,
    pub open_barrier_kinds: Vec<BarrierKindId>,
    pub powered_bridge_kinds: Vec<BridgeKindId>,
    pub carrier_runs: Vec<(CarrierId, bool)>,
}

/// Every switch of the map, the kinds wired to each, and the plates held
/// last tick.
#[derive(Clone, Debug)]
pub struct PressureSwitches {
    pub switches: Switches,
    pub inputs: PressurePlateInputs,
    pub barriers: Vec<Vec<u16>>,
    pub bridges: Vec<Vec<u16>>,
    pub carriers: Vec<(CarrierId, SwitchId)>,
}

/// The numbers of the kinds among `defs` wired to each of `count` switches.
fn wire_kinds(defs: &Vec<KindDef>, table: &NameTable, count: usize) -> (wired: Vec<Vec<u16>>)
    requires
        defs@.len() <= 0x1_0000,
        table.ids@.len() <= 0x1_0000,
    ensures
        wired@.len() == count,
        forall|s: int| 0 <= s < count ==> (#[trigger] wired@[s])@ == wired_kinds(defs@, table.ids@, s, defs@.len() as int),
{
    let mut resolved: Vec<Option<u16>> = Vec::new();
    let mut k: usize = 0;
    while k < defs.len()
        invariant
            k <= defs@.len(),
            table.ids@.len() <= 0x1_0000,
            resolved@.len() == k,
            forall|j: int| 0 <= j < k ==> match #[trigger] resolved@[j] {
                Some(x) => kind_switch(table.ids@, defs@[j]) == Some(x as int),
                None => kind_switch(table.ids@, defs@[j]) is None,
            },
        decreases defs@.len() - k,
    {
        let r = match &defs[k].switch {
            Some(name) => table.index_of(name),
            None => None,
        };
        resolved.push(r);
        k = k + 1;
    }
    let mut wired: Vec<Vec<u16>> = Vec::new();
    let mut s: usize = 0;
    while s < count
        invariant
            s <= count,
            defs@.len() <= 0x1_0000,
            resolved@.len() == defs@.len(),
            forall|j: int| 0 <= j < defs@.len() ==> match #[trigger] resolved@[j] {
                Some(x) => kind_switch(table.ids@, defs@[j]) == Some(x as int),
                None => kind_switch(table.ids@, defs@[j]) is None,
            },
            wired@.len() == s,
            forall|t: int| 0 <= t < s ==> (#[trigger] wired@[t])@ == wired_kinds(defs@, table.ids@, t, defs@.len() as int),
        decreases count - s,
    {
        let mut list: Vec<u16> = Vec::new();
        let mut j: usize = 0;
        while j < defs.len()
            invariant
                j <= defs@.len(),
                defs@.len() <= 0x1_0000,
                resolved@.len() == defs@.len(),
                forall|x: int| 0 <= x < defs@.len() ==> match #[trigger] resolved@[x] {
                    Some(y) => kind_switch(table.ids@, defs@[x]) == Some(y as int),
                    None => kind_switch(table.ids@, defs@[x]) is None,
                },
                list@ == wired_kinds(defs@, table.ids@, s as int, j as int),
            decreases defs@.len() - j,
        {
            let here = resolved[j];
            proof {
                assert(match resolved@[j as int] {
                    Some(y) => kind_switch(table.ids@, defs@[j as int]) == Some(y as int),
                    None => kind_switch(table.ids@, defs@[j as int]) is None,
                });
            }
            match here {
                Some(x) => {
                    if x as usize == s {
                        list.push(j as u16);
                    }
                },
                None => {},
            }
            j = j + 1;
        }
        wired.push(list);
        s = s + 1;
    }
    wired
}

/// The union of `lists[s]` over the switches `s` that are on, as an
/// ascending list.
fn union_of_active(lists: &Vec<Vec<u16>>, switches: &Switches) -> (out: Vec<u16>)
    requires
        lists@.len() == switches.switches@.len(),
    ensures
        forall|a: int, b: int| 0 <= a < b < out@.len() ==> out@[a] < out@[b],
        forall|x: u16|
            #[trigger] out@.contains(x) <==> exists|s: int|
                0 <= s < lists@.len() && switches.switches@[s].active && (#[trigger] lists@[s])@.contains(x),
{
    let mut out: Vec<u16> = Vec::new();
    let mut s: usize = 0;
    while s < lists.len()
        invariant
            s <= lists@.len(),
            lists@.len() == switches.switches@.len(),
            forall|a: int, b: int| 0 <= a < b < out@.len() ==> out@[a] < out@[b],
            forall|x: u16|
                #[trigger] out@.contains(x) <==> exists|t: int|
                    0 <= t < s && switches.switches@[t].active && (#[trigger] lists@[t])@.contains(x),
        decreases lists@.len() - s,
    {
        if switches.switches[s].active {
            let list = &lists[s];
            let mut k: usize = 0;
            while k < list.len()
                invariant
                    s < lists@.len(),
                    lists@.len() == switches.switches@.len(),
                    *list == lists@[s as int],
                    switches.switches@[s as int].active,
                    k <= list@.len(),
                    forall|a: int, b: int| 0 <= a < b < out@.len() ==> out@[a] < out@[b],
                    forall|x: u16|
                        #[trigger] out@.contains(x) <==> (exists|t: int|
                            0 <= t < s && switches.switches@[t].active && (#[trigger] lists@[t])@.contains(x)) || (exists|q: int|
                            0 <= q < k && list@[q] == x),
                decreases list@.len() - k,
            {
                crate::bridges::insert_kind(&mut out, list[k]);
                proof {
                    assert forall|x: u16|
                        #[trigger] out@.contains(x) <==> (exists|t: int|
                            0 <= t < s && switches.switches@[t].active && (#[trigger] lists@[t])@.contains(x)) || (exists|q: int|
                            0 <= q < k + 1 && list@[q] == x) by {
                        if x == list@[k as int] {
                            assert(list@[k as int] == x);
                        }
                    }
                }
                k = k + 1;
            }
            proof {
                assert forall|x: u16|
                    #[trigger] out@.contains(x) <==> exists|t: int|
                        0 <= t < s + 1 && switches.switches@[t].active && (#[trigger] lists@[t])@.contains(x) by {
                    if exists|q: int| 0 <= q < list@.len() && list@[q] == x {
                        let q = choose|q: int| 0 <= q < list@.len() && list@[q] == x;
                        assert(lists@[s as int]@.contains(x));
                    }
                    if lists@[s as int]@.contains(x) {
                        let q = choose|q: int| 0 <= q < list@.len() && list@[q] == x;
                    }
                }
            }
        }
        s = s + 1;
    }
    out
}

fn wire_carriers(records: &Vec<CarrierRecord>, switch_count: usize) -> (wired: Vec<(CarrierId, SwitchId)>)
    requires
        records@.len() < 0x1_0000,
        forall|i: int|
            0 <= i < records@.len() ==> ((#[trigger] records@[i]).switch matches Some(sw) ==> (sw.0 as int) < switch_count),
    ensures
        wired@ == wired_carriers(records@, records@.len() as int),
        forall|i: int| 0 <= i < wired@.len() ==> ((#[trigger] wired@[i]).1.0 as int) < switch_count,
{
    let mut wired: Vec<(CarrierId, SwitchId)> = Vec::new();
    let mut i: usize = 0;
    while i < records.len()
        invariant
            i <= records@.len(),
            records@.len() < 0x1_0000,
            forall|t: int|
                0 <= t < records@.len() ==> ((#[trigger] records@[t]).switch matches Some(sw) ==> (sw.0 as int) < switch_count),
            wired@ == wired_carriers(records@, i as int),
            forall|t: int| 0 <= t < wired@.len() ==> ((#[trigger] wired@[t]).1.0 as int) < switch_count,
        decreases records@.len() - i,
    {
        match records[i].switch {
            Some(sw) => {
                wired.push((CarrierId((i + 1) as u16), sw));
            },
            None => {},
        }
        i = i + 1;
    }
    wired
}

/// The carriers wired to switches, each with whether its switch is on.
pub open spec fn carrier_runs_of(wired: Seq<(CarrierId, SwitchId)>, switches: Seq<crate::switches::Switch>) -> Seq<(CarrierId, bool)> {
    wired.map_values(|w: (CarrierId, SwitchId)| (w.0, switches[w.1.0 as int].active))
}

impl PressureSwitches {
    pub open spec fn wf(&self) -> bool {
        &&& self.switches.wf()
        &&& self.barriers@.len() == self.switches.switches@.len()
        &&& self.bridges@.len() == self.switches.switches@.len()
        &&& forall|i: int| 0 <= i < self.carriers@.len() ==> ((#[trigger] self.carriers@[i]).1.0 as int) < self.switches.switches@.len()
    }

    /// The switches of the settings, all off and unheld, with the barrier and
    /// bridge kinds wired to each and the carriers that name a switch; the
    /// switch table numbers the settings' switches and the kinds are
    /// numbered by position.
    pub fn new(
        defs: &Vec<SwitchDef>,
        barrier_kinds: &Vec<KindDef>,
        bridge_kinds: &Vec<KindDef>,
        carriers: &Vec<CarrierRecord>,
        table: &NameTable,
        fireworks: Option<&FireworksSchedule>,
    ) -> (s: PressureSwitches)
        requires
            defs@.len() <= 0x1_0000,
            carriers@.len() < 0x1_0000,
            forall|i: int|
                0 <= i < carriers@.len() ==> ((#[trigger] carriers@[i]).switch matches Some(sw) ==> (sw.0 as int) < defs@.len()),
            barrier_kinds@.len() <= 0x1_0000,
            bridge_kinds@.len() <= 0x1_0000,
            table.ids@.len() == defs@.len(),
            fireworks matches Some(f) ==> name_index(table.ids@, f.switch@) is Some,
        ensures
            s.wf(),
            s.inputs.prev_held@.len() == 0,
            s.switches.switches@.len() == defs@.len(),
            s.carriers@ == wired_carriers(carriers@, carriers@.len() as int),
            forall|i: int|
                0 <= i < defs@.len() ==> #[trigger] s.switches.switches@[i] == (crate::switches::Switch {
                    config: defs@[i].policy,
                    active: false,
                    toggle: defs@[i].policy.activation.toggles(0),
                    occupied: false,
                }),
            forall|i: int|
                0 <= i < defs@.len() ==> (#[trigger] s.barriers@[i])@ == wired_kinds(
                    barrier_kinds@,
                    table.ids@,
                    i,
                    barrier_kinds@.len() as int,
                ),
            forall|i: int|
                0 <= i < defs@.len() ==> (#[trigger] s.bridges@[i])@ == wired_kinds(
                    bridge_kinds@,
                    table.ids@,
                    i,
                    bridge_kinds@.len() as int,
                ),
            match fireworks {
                None => s.switches.fireworks is None,
                Some(f) => s.switches.fireworks == Some(
                    FireworkTarget {
                        switch: SwitchId(name_index(table.ids@, f.switch@).unwrap() as u16),
                        interval_ticks: f.interval_ticks,
                        next_show_at: None,
                    },
                ),
            },
    {
        let no_fields: Vec<crate::switches::FieldDef> = Vec::new();
        let switches = Switches::new(defs, &no_fields, table, fireworks);
        let barriers = wire_kinds(barrier_kinds, table, defs.len());
        let bridges = wire_kinds(bridge_kinds, table, defs.len());
        let wired = wire_carriers(carriers, defs.len());
        PressureSwitches { switches, inputs: PressurePlateInputs::new(), barriers, bridges, carriers: wired }
    }

    /// Advance every switch for this tick's held plates; `held` becomes the
    /// previous tick's set for the next call.
    pub fn update(
        &mut self,
        logged_in: usize,
        alive: usize,
        held: Vec<usize>,
        plates: &Vec<PressurePlateRuntime>,
    ) -> (edges: PlateEdges)
        requires
            old(self).wf(),
            within(held@, plates@.len() as int),
        ensures
            final(self).wf(),
            final(self).barriers@ == old(self).barriers@,
            final(self).bridges@ == old(self).bridges@,
            final(self).carriers@ == old(self).carriers@,
            final(self).switches.fireworks == old(self).switches.fireworks,
            final(self).switches.switches@.len() == old(self).switches.switches@.len(),
            forall|i: int|
                0 <= i < old(self).switches.switches@.len() ==> #[trigger] final(self).switches.switches@[i] == update_step(
                    old(self).switches.switches@[i],
                    sampled_all(
                        old(self).switches.switches@,
                        held@,
                        old(self).inputs.prev_held@,
                        plates@,
                        alive as int,
                    )[i],
                    logged_in as int,
                ),
            edges.flipped@ == flips(
                old(self).switches.switches@,
                sampled_all(old(self).switches.switches@, held@, old(self).inputs.prev_held@, plates@, alive as int),
                logged_in as int,
                old(self).switches.switches@.len() as int,
            ),
            edges.prev_held@ == old(self).inputs.prev_held@,
            final(self).inputs.prev_held@ == held@,
    {
        self.inputs.update(&mut self.switches, logged_in, alive, held, plates)
    }

    /// A death or departure reset: every toggle switch whose trigger fires
    /// for one of `resets` goes off, and its plates held now count as
    /// already pressed.
    pub fn reset(
        &mut self,
        resets: &Vec<ResetCounts>,
        logged_in: usize,
        alive: usize,
        held: &Vec<usize>,
        plates: &Vec<PressurePlateRuntime>,
    )
        requires
            old(self).wf(),
            within(held@, plates@.len() as int),
            within(old(self).inputs.prev_held@, plates@.len() as int),
            no_dup(held@),
            no_dup(old(self).inputs.prev_held@),
        ensures
            final(self).wf(),
            final(self).barriers@ == old(self).barriers@,
            final(self).bridges@ == old(self).bridges@,
            final(self).carriers@ == old(self).carriers@,
            final(self).switches.fireworks == old(self).switches.fireworks,
            final(self).switches.switches@.len() == old(self).switches.switches@.len(),
            forall|i: int|
                0 <= i < old(self).switches.switches@.len() ==> #[trigger] final(self).switches.switches@[i] == reset_step(
                    old(self).switches.switches@[i],
                    sampled_all(
                        old(self).switches.switches@,
                        held@,
                        old(self).inputs.prev_held@,
                        plates@,
                        alive as int,
                    )[i],
                    logged_in as int,
                    fired_by(old(self).switches.switches@[i].config.reset_on_player_death, resets@),
                ).0,
            no_dup(final(self).inputs.prev_held@),
            within(final(self).inputs.prev_held@, plates@.len() as int),
            forall|x: usize|
                #[trigger] final(self).inputs.prev_held@.contains(x) <==> {
                    let on_reset = (x as int) < plates@.len() && crate::switches::reset_ids(
                        old(self).switches.switches@,
                        sampled_all(
                            old(self).switches.switches@,
                            held@,
                            old(self).inputs.prev_held@,
                            plates@,
                            alive as int,
                        ),
                        logged_in as int,
                        resets@,
                        old(self).switches.switches@.len() as int,
                    ).contains(plates@[x as int].switch);
                    (old(self).inputs.prev_held@.contains(x) && !on_reset) || (held@.contains(x) && on_reset)
                },
    {
        self.inputs.reset(&mut self.switches, resets, logged_in, alive, held, plates);
    }

    /// Whether a fireworks show starts this tick.
    pub fn fireworks_due(&mut self, tick: u32) -> (due: bool)
        requires
            old(self).wf(),
        ensures
            final(self).wf(),
            final(self).barriers@ == old(self).barriers@,
            final(self).bridges@ == old(self).bridges@,
            final(self).carriers@ == old(self).carriers@,
            final(self).inputs.prev_held@ == old(self).inputs.prev_held@,
            final(self).switches.switches@ == old(self).switches.switches@,
            match old(self).switches.fireworks {
                None => !due && final(self).switches.fireworks is None,
                Some(f) => {
                    &&& due == show_due(old(self).switches.switches@, f, tick, Seq::empty())
                    &&& final(self).switches.fireworks == if due {
                        Some(FireworkTarget { next_show_at: Some(tick_add(tick, f.interval_ticks)), ..f })
                    } else {
                        Some(f)
                    }
                },
            },
    {
        let none: Vec<SwitchId> = Vec::new();
        let due = self.switches.fireworks_due(tick, &none);
        proof {
            assert(none@ =~= Seq::<SwitchId>::empty());
        }
        due
    }

    /// The switches on, and the barrier kinds open and the bridge kinds
    /// powered by them, each ascending.
    pub fn state(&self) -> (state: PlateState)
        requires
            self.wf(),
        ensures
            state.active_switches@ == active_ids(self.switches.switches@, self.switches.switches@.len() as int),
            forall|a: int, b: int|
                0 <= a < b < state.open_barrier_kinds@.len() ==> (#[trigger] state.open_barrier_kinds@[a]).0 < (
                #[trigger] state.open_barrier_kinds@[b]).0,
            forall|a: int, b: int|
                0 <= a < b < state.powered_bridge_kinds@.len() ==> (#[trigger] state.powered_bridge_kinds@[a]).0 < (
                #[trigger] state.powered_bridge_kinds@[b]).0,
            forall|k: BarrierKindId|
                #[trigger] state.open_barrier_kinds@.contains(k) <==> exists|s: int|
                    0 <= s < self.barriers@.len() && self.switches.switches@[s].active
                        && (#[trigger] self.barriers@[s])@.contains(k.0),
            forall|k: BridgeKindId|
                #[trigger] state.powered_bridge_kinds@.contains(k) <==> exists|s: int|
                    0 <= s < self.bridges@.len() && self.switches.switches@[s].active
                        && (#[trigger] self.bridges@[s])@.contains(k.0),
            state.carrier_runs@ == carrier_runs_of(self.carriers@, self.switches.switches@),
    {
        let base = self.switches.state();
        let mut carrier_runs: Vec<(CarrierId, bool)> = Vec::new();
        let mut c: usize = 0;
        while c < self.carriers.len()
            invariant
                self.wf(),
                c <= self.carriers@.len(),
                carrier_runs@ == carrier_runs_of(self.carriers@, self.switches.switches@).take(c as int),
            decreases self.carriers@.len() - c,
        {
            let (carrier, switch) = self.carriers[c];
            proof {
                assert((self.carriers@[c as int]).1.0 < self.switches.switches@.len());
            }
            let running = self.switches.switches[switch.0 as usize].active;
            carrier_runs.push((carrier, running));
            proof {
                assert(carrier_runs@ =~= carrier_runs_of(self.carriers@, self.switches.switches@).take(c + 1));
            }
            c = c + 1;
        }
        proof {
            assert(carrier_runs@ =~= carrier_runs_of(self.carriers@, self.switches.switches@));
        }
        let open = union_of_active(&self.barriers, &self.switches);
        let powered = union_of_active(&self.bridges, &self.switches);
        let mut open_barrier_kinds: Vec<BarrierKindId> = Vec::new();
        let mut j: usize = 0;
        while j < open.len()
            invariant
                j <= open@.len(),
                open_barrier_kinds@.len() == j,
                forall|a: int| 0 <= a < j ==> (#[trigger] open_barrier_kinds@[a]).0 == open@[a],
            decreases open@.len() - j,
        {
            open_barrier_kinds.push(BarrierKindId(open[j]));
            j = j + 1;
        }
        let mut powered_bridge_kinds: Vec<BridgeKindId> = Vec::new();
        let mut j: usize = 0;
        while j < powered.len()
            invariant
                j <= powered@.len(),
                powered_bridge_kinds@.len() == j,
                forall|a: int| 0 <= a < j ==> (#[trigger] powered_bridge_kinds@[a]).0 == powered@[a],
            decreases powered@.len() - j,
        {
            powered_bridge_kinds.push(BridgeKindId(powered[j]));
            j = j + 1;
        }
        proof {
            assert forall|k: BarrierKindId| #[trigger] open_barrier_kinds@.contains(k) <==> open@.contains(k.0) by {
                if open_barrier_kinds@.contains(k) {
                    let a = choose|a: int| 0 <= a < open_barrier_kinds@.len() && open_barrier_kinds@[a] == k;
                    assert(open@[a] == k.0);
                }
                if open@.contains(k.0) {
                    let a = choose|a: int| 0 <= a < open@.len() && open@[a] == k.0;
                    assert(open_barrier_kinds@[a] == k);
                }
            }
            assert forall|k: BridgeKindId| #[trigger] powered_bridge_kinds@.contains(k) <==> powered@.contains(k.0) by {
                if powered_bridge_kinds@.contains(k) {
                    let a = choose|a: int| 0 <= a < powered_bridge_kinds@.len() && powered_bridge_kinds@[a] == k;
                    assert(powered@[a] == k.0);
                }
                if powered@.contains(k.0) {
                    let a = choose|a: int| 0 <= a < powered@.len() && powered@[a] == k.0;
                    assert(powered_bridge_kinds@[a] == k);
                }
            }
        }
        PlateState { active_switches: base.active_switches, open_barrier_kinds, powered_bridge_kinds, carrier_runs }
    }
}

} // verus!
