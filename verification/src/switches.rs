//! The switch state machine. Each switch follows its policy: momentary
//! switches are on while their inputs hold them, toggle switches flip on
//! each fresh press, and auto switches toggle while exactly one player is
//! logged in and are momentary otherwise. A switch drives fields, each of
//! which flips from its initial state while the switch is on, and the
//! fireworks switch starts a show whenever it is on and the previous show
//! plus the cooldown have passed.
use vstd::prelude::*;

use crate::ids::{FieldId, SwitchId};
use crate::tables::{NameTable, name_index};

verus! {

/// How a switch reacts to its inputs.
#[derive(Clone, Copy, Debug, PartialEq, Eq, Structural)]
pub enum Activation {
    /// On exactly while held.
    Momentary,
    /// Flips on each fresh press.
    Toggle,
    /// Toggle while exactly one player is logged in, momentary otherwise.
    Auto,
}

impl Activation {
    pub open spec fn toggles(self, logged_in: int) -> bool {
        match self {
            Activation::Momentary => false,
            Activation::Toggle => true,
            Activation::Auto => logged_in == 1,
        }
    }

    pub fn is_toggle(&self, logged_in: usize) -> (t: bool)
        ensures
            t == self.toggles(logged_in as int),
    {
        match self {
            Activation::Momentary => false,
            Activation::Toggle => true,
            Activation::Auto => logged_in == 1,
        }
    }
}

/// What holding a switch takes.
#[derive(Clone, Copy, Debug, PartialEq, Eq, Structural)]
pub enum SwitchHold {
    /// Any of its plates occupied.
    Any,
    /// Every living player on one of its plates, or every plate held when
    /// the players outnumber them; never without a plate or a living player.
    Everyone,
}

pub open spec fn min_int(a: int, b: int) -> int {
    if a <= b {
        a
    } else {
        b
    }
}

impl SwitchHold {
    pub open spec fn holds(self, plates: int, held: int, alive: int) -> bool {
        match self {
            SwitchHold::Any => held > 0,
            SwitchHold::Everyone => plates > 0 && alive > 0 && held >= min_int(plates, alive),
        }
    }

    pub fn is_held(&self, plates: usize, held: usize, alive: usize) -> (h: bool)
        ensures
            h == self.holds(plates as int, held as int, alive as int),
    {
        match self {
            SwitchHold::Any => held > 0,
            SwitchHold::Everyone => plates > 0 && alive > 0 && held >= if plates <= alive {
                plates
            } else {
                alive
            },
        }
    }
}

/// Everyone alive is on a firework plate, or every plate is held when the
/// players outnumber them.
pub fn firework_plates_ready(plates: usize, held: usize, alive: usize) -> (ready: bool)
    ensures
        ready == SwitchHold::Everyone.holds(plates as int, held as int, alive as int),
{
    SwitchHold::Everyone.is_held(plates, held, alive)
}

/// Which player deaths or departures turn a toggle switch off.
#[derive(Clone, Copy, Debug, PartialEq, Eq, Structural)]
pub enum DeathTrigger {
    Never,
    /// When the only logged-in player goes.
    Solo,
    /// Whenever anyone goes.
    Any,
    /// When nobody is left alive.
    All,
}

impl DeathTrigger {
    pub open spec fn fires(self, logged_in: int, alive: int) -> bool {
        match self {
            DeathTrigger::Never => false,
            DeathTrigger::Solo => logged_in == 1,
            DeathTrigger::Any => true,
            DeathTrigger::All => alive == 0,
        }
    }

    pub fn applies(&self, logged_in: usize, alive: usize) -> (a: bool)
        ensures
            a == self.fires(logged_in as int, alive as int),
    {
        match self {
            DeathTrigger::Never => false,
            DeathTrigger::Solo => logged_in == 1,
            DeathTrigger::Any => true,
            DeathTrigger::All => alive == 0,
        }
    }
}

/// The player counts at one death or departure.
#[derive(Clone, Copy, Debug)]
pub struct ResetCounts {
    pub logged_in: usize,
    pub alive: usize,
}

/// Some death or departure of the tick fires the trigger.
pub open spec fn fired_by(trigger: DeathTrigger, resets: Seq<ResetCounts>) -> bool {
    exists|i: int| 0 <= i < resets.len() && trigger.fires(#[trigger] resets[i].logged_in as int, resets[i].alive as int)
}

pub fn triggered(trigger: DeathTrigger, resets: &Vec<ResetCounts>) -> (t: bool)
    ensures
        t == fired_by(trigger, resets@),
{
    let mut i: usize = 0;
    while i < resets.len()
        invariant
            i <= resets@.len(),
            forall|j: int| 0 <= j < i ==> !trigger.fires(#[trigger] resets@[j].logged_in as int, resets@[j].alive as int),
        decreases resets@.len() - i,
    {
        if trigger.applies(resets[i].logged_in, resets[i].alive) {
            return true;
        }
        i = i + 1;
    }
    false
}

/// A switch's policy.
#[derive(Clone, Copy, Debug, PartialEq, Eq, Structural)]
pub struct SwitchConfig {
    pub activation: Activation,
    pub held: SwitchHold,
    pub reset_on_player_death: DeathTrigger,
}

/// What a switch's plates did this tick: whether they hold it, and how many
/// of them were freshly pressed.
#[derive(Clone, Copy, Debug)]
pub struct SwitchInput {
    pub occupied: bool,
    pub presses: usize,
}

/// One switch: its policy, whether it is on, whether it currently toggles,
/// and whether its inputs held it last tick (an `Everyone` toggle flips on
/// that rule's rising edge).
#[derive(Clone, Copy, Debug, PartialEq, Eq, Structural)]
pub struct Switch {
    pub config: SwitchConfig,
    pub active: bool,
    pub toggle: bool,
    pub occupied: bool,
}

/// A switch after its mode is brought up to date for `logged_in` players,
/// and whether the mode changed. A momentary switch, and one whose mode
/// just changed, follows `occupied`.
pub open spec fn mode_step(sw: Switch, logged_in: int, occupied: bool) -> (Switch, bool) {
    let toggle = sw.config.activation.toggles(logged_in);
    let changed = toggle != sw.toggle;
    let active = if changed || !toggle {
        occupied
    } else {
        sw.active
    };
    (Switch { active, toggle, ..sw }, changed)
}

/// How many times a switch flips this tick: for a switch that stays a
/// toggle, each fresh press under `Any`, or the rising edge of the hold
/// under `Everyone`.
pub open spec fn flip_count(sw: Switch, input: SwitchInput, logged_in: int) -> int {
    let (m, changed) = mode_step(sw, logged_in, input.occupied);
    if m.toggle && !changed {
        match sw.config.held {
            SwitchHold::Any => input.presses as int,
            SwitchHold::Everyone => if input.occupied && !sw.occupied {
                1int
            } else {
                0int
            },
        }
    } else {
        0
    }
}

/// A switch after one tick's update.
pub open spec fn update_step(sw: Switch, input: SwitchInput, logged_in: int) -> Switch {
    let m = mode_step(sw, logged_in, input.occupied).0;
    let active = if flip_count(sw, input, logged_in) % 2 == 1 {
        !m.active
    } else {
        m.active
    };
    Switch { active, occupied: input.occupied, ..m }
}

/// The ids flipped by one tick's update of the first `n` switches: each
/// switch's id once per flip, in switch order.
pub open spec fn flips(sws: Seq<Switch>, inputs: Seq<SwitchInput>, logged_in: int, n: int) -> Seq<SwitchId>
    decreases n,
{
    if n <= 0 {
        Seq::empty()
    } else {
        flips(sws, inputs, logged_in, n - 1) + Seq::new(
            flip_count(sws[n - 1], inputs[n - 1], logged_in) as nat,
            |k: int| SwitchId((n - 1) as u16),
        )
    }
}

/// A switch after a death or departure reset: a toggle switch whose trigger
/// fired goes off, and the reset switches and those whose mode changed
/// take the current hold as last seen. Also whether it was reset.
pub open spec fn reset_step(sw: Switch, input: SwitchInput, logged_in: int, fired: bool) -> (Switch, bool) {
    let (m, changed) = mode_step(sw, logged_in, input.occupied);
    let reset_now = m.toggle && fired;
    let active = if reset_now {
        false
    } else {
        m.active
    };
    let occupied = if reset_now || changed {
        input.occupied
    } else {
        sw.occupied
    };
    (Switch { active, occupied, ..m }, reset_now)
}

/// The ids of the first `n` switches that a reset turns off, ascending.
pub open spec fn reset_ids(
    sws: Seq<Switch>,
    inputs: Seq<SwitchInput>,
    logged_in: int,
    resets: Seq<ResetCounts>,
    n: int,
) -> Seq<SwitchId>
    decreases n,
{
    if n <= 0 {
        Seq::empty()
    } else {
        let rest = reset_ids(sws, inputs, logged_in, resets, n - 1);
        let sw = sws[n - 1];
        if reset_step(sw, inputs[n - 1], logged_in, fired_by(sw.config.reset_on_player_death, resets)).1 {
            rest.push(SwitchId((n - 1) as u16))
        } else {
            rest
        }
    }
}

/// The fireworks switch's cadence: while it is on, a show starts whenever
/// the previous show and the cooldown have passed.
#[derive(Clone, Copy, Debug, PartialEq, Eq, Structural)]
pub struct FireworkTarget {
    pub switch: SwitchId,
    pub interval_ticks: u32,
    pub next_show_at: Option<u32>,
}

/// How far tick `a` is ahead of tick `b` on the wrapping tick counter.
pub open spec fn ahead(a: u32, b: u32) -> int {
    if a >= b {
        a - b
    } else {
        a - b + 0x1_0000_0000
    }
}

/// Tick `a` comes after tick `b`: it is ahead by less than half the counter.
pub open spec fn newer(a: u32, b: u32) -> bool {
    0 < ahead(a, b) < 0x8000_0000
}

pub fn sequence_is_newer(a: u32, b: u32) -> (n: bool)
    ensures
        n == newer(a, b),
{
    let d = a.wrapping_sub(b);
    d != 0 && d < 0x8000_0000
}

/// `a + b` on the wrapping tick counter.
pub open spec fn tick_add(a: u32, b: u32) -> u32 {
    if a + b > u32::MAX {
        (a + b - 0x1_0000_0000) as u32
    } else {
        (a + b) as u32
    }
}

/// A switch defined in the map settings, by id.
#[derive(Clone, Debug)]
pub struct SwitchDef {
    pub id: String,
    pub policy: SwitchConfig,
}

/// A field of the map settings: the switch that drives it, if any, and
/// whether it starts on.
#[derive(Clone, Debug)]
pub struct FieldDef {
    pub id: String,
    pub switch: Option<String>,
    pub initially_on: bool,
}

/// The fireworks switch and the ticks between the starts of two shows.
#[derive(Clone, Debug)]
pub struct FireworksSchedule {
    pub switch: String,
    pub interval_ticks: u32,
}

/// The switch a field names, by number, if it names one.
pub open spec fn field_switch(table: Seq<String>, f: FieldDef) -> Option<int> {
    match f.switch {
        Some(name) => name_index(table, name@),
        None => None,
    }
}

/// The fields among the first `n` driven by switch `s`, with their initial
/// states, in order.
pub open spec fn driven_fields(fields: Seq<FieldDef>, table: Seq<String>, s: int, n: int) -> Seq<(FieldId, bool)>
    decreases n,
{
    if n <= 0 {
        Seq::empty()
    } else {
        let rest = driven_fields(fields, table, s, n - 1);
        if field_switch(table, fields[n - 1]) == Some(s) {
            rest.push((FieldId((n - 1) as u16), fields[n - 1].initially_on))
        } else {
            rest
        }
    }
}

/// The fields among the first `n` that no switch drives and that start off,
/// and so stay off, in order.
pub open spec fn unswitched_open(fields: Seq<FieldDef>, n: int) -> Seq<FieldId>
    decreases n,
{
    if n <= 0 {
        Seq::empty()
    } else {
        let rest = unswitched_open(fields, n - 1);
        if fields[n - 1].switch is None && !fields[n - 1].initially_on {
            rest.push(FieldId((n - 1) as u16))
        } else {
            rest
        }
    }
}

/// The state shared with the clients: the switches that are on, ascending,
/// and the fields that are open (off), ascending.
#[derive(Clone, Debug)]
pub struct SwitchState {
    pub active_switches: Vec<SwitchId>,
    pub open_fields: Vec<FieldId>,
}

/// Every switch of the map, the fields each drives, the fields no switch
/// drives that start off, and the fireworks cadence.
#[derive(Clone, Debug)]
pub struct Switches {
    pub switches: Vec<Switch>,
    pub fields: Vec<Vec<(FieldId, bool)>>,
    pub unswitched_open_fields: Vec<FieldId>,
    pub fireworks: Option<FireworkTarget>,
}

impl Switches {
    pub open spec fn wf(&self) -> bool {
        &&& self.switches@.len() == self.fields@.len()
        &&& self.switches@.len() <= 0x1_0000
        &&& self.fireworks matches Some(f) ==> (f.switch.0 as int) < self.switches@.len()
    }

    /// Everything of `self` but the switches themselves is as in `other`.
    pub open spec fn same_wiring(&self, other: &Switches) -> bool {
        &&& self.fields@ == other.fields@
        &&& self.unswitched_open_fields@ == other.unswitched_open_fields@
    }

    /// The switches of the settings, all off and unheld, each driving the
    /// fields that name it; the switch table numbers the settings' switches.
    pub fn new(
        defs: &Vec<SwitchDef>,
        fields: &Vec<FieldDef>,
        table: &NameTable,
        fireworks: Option<&FireworksSchedule>,
    ) -> (s: Switches)
        requires
            defs@.len() <= 0x1_0000,
            fields@.len() <= 0x1_0000,
            table.ids@.len() == defs@.len(),
            forall|k: int|
                0 <= k < fields@.len() && (#[trigger] fields@[k]).switch is Some ==> field_switch(table.ids@, fields@[k])
                    is Some,
            fireworks matches Some(f) ==> name_index(table.ids@, f.switch@) is Some,
        ensures
            s.wf(),
            s.switches@.len() == defs@.len(),
            forall|i: int|
                0 <= i < defs@.len() ==> #[trigger] s.switches@[i] == (Switch {
                    config: defs@[i].policy,
                    active: false,
                    toggle: defs@[i].policy.activation.toggles(0),
                    occupied: false,
                }),
            forall|i: int|
                0 <= i < defs@.len() ==> (#[trigger] s.fields@[i])@ == driven_fields(
                    fields@,
                    table.ids@,
                    i,
                    fields@.len() as int,
                ),
            s.unswitched_open_fields@ == unswitched_open(fields@, fields@.len() as int),
            match fireworks {
                None => s.fireworks is None,
                Some(f) => s.fireworks == Some(
                    FireworkTarget {
                        switch: SwitchId(name_index(table.ids@, f.switch@).unwrap() as u16),
                        interval_ticks: f.interval_ticks,
                        next_show_at: None,
                    },
                ),
            },
    {
        let mut switches: Vec<Switch> = Vec::new();
        let mut i: usize = 0;
        while i < defs.len()
            invariant
                i <= defs@.len(),
                switches@.len() == i,
                forall|j: int|
                    0 <= j < i ==> #[trigger] switches@[j] == (Switch {
                        config: defs@[j].policy,
                        active: false,
                        toggle: defs@[j].policy.activation.toggles(0),
                        occupied: false,
                    }),
            decreases defs@.len() - i,
        {
            let policy = defs[i].policy;
            switches.push(Switch { config: policy, active: false, toggle: policy.activation.is_toggle(0), occupied: false });
            i = i + 1;
        }
        let mut resolved: Vec<Option<u16>> = Vec::new();
        let mut k: usize = 0;
        while k < fields.len()
            invariant
                k <= fields@.len(),
                table.ids@.len() <= 0x1_0000,
                resolved@.len() == k,
                forall|j: int|
                    0 <= j < k ==> match #[trigger] resolved@[j] {
                        Some(x) => field_switch(table.ids@, fields@[j]) == Some(x as int),
                        None => fields@[j].switch is None,
                    },
                forall|j: int|
                    0 <= j < fields@.len() && (#[trigger] fields@[j]).switch is Some ==> field_switch(table.ids@, fields@[j])
                        is Some,
            decreases fields@.len() - k,
        {
            let r = match &fields[k].switch {
                Some(name) => table.index_of(name),
                None => None,
            };
            proof {
                assert(fields@[k as int].switch is Some ==> field_switch(table.ids@, fields@[k as int]) is Some);
            }
            resolved.push(r);
            k = k + 1;
        }
        let mut driven: Vec<Vec<(FieldId, bool)>> = Vec::new();
        let mut s: usize = 0;
        while s < defs.len()
            invariant
                s <= defs@.len(),
                defs@.len() <= 0x1_0000,
                fields@.len() <= 0x1_0000,
                resolved@.len() == fields@.len(),
                forall|j: int|
                    0 <= j < fields@.len() ==> match #[trigger] resolved@[j] {
                        Some(x) => field_switch(table.ids@, fields@[j]) == Some(x as int),
                        None => fields@[j].switch is None,
                    },
                driven@.len() == s,
                forall|t: int|
                    0 <= t < s ==> (#[trigger] driven@[t])@ == driven_fields(fields@, table.ids@, t, fields@.len() as int),
            decreases defs@.len() - s,
        {
            let mut list: Vec<(FieldId, bool)> = Vec::new();
            let mut j: usize = 0;
            while j < fields.len()
                invariant
                    j <= fields@.len(),
                    s < defs@.len(),
                    defs@.len() <= 0x1_0000,
                    fields@.len() <= 0x1_0000,
                    resolved@.len() == fields@.len(),
                    forall|x: int|
                        0 <= x < fields@.len() ==> match #[trigger] resolved@[x] {
                            Some(y) => field_switch(table.ids@, fields@[x]) == Some(y as int),
                            None => fields@[x].switch is None,
                        },
                    list@ == driven_fields(fields@, table.ids@, s as int, j as int),
                decreases fields@.len() - j,
            {
                let here = resolved[j];
                proof {
                    assert(match resolved@[j as int] {
                        Some(y) => field_switch(table.ids@, fields@[j as int]) == Some(y as int),
                        None => fields@[j as int].switch is None,
                    });
                }
                match here {
                    Some(x) => {
                        if x as usize == s {
                            list.push((FieldId(j as u16), fields[j].initially_on));
                        }
                    },
                    None => {},
                }
                j = j + 1;
            }
            driven.push(list);
            s = s + 1;
        }
        let mut unswitched: Vec<FieldId> = Vec::new();
        let mut j: usize = 0;
        while j < fields.len()
            invariant
                j <= fields@.len(),
                fields@.len() <= 0x1_0000,
                unswitched@ == unswitched_open(fields@, j as int),
            decreases fields@.len() - j,
        {
            if fields[j].switch.is_none() && !fields[j].initially_on {
                unswitched.push(FieldId(j as u16));
            }
            j = j + 1;
        }
        let target = match fireworks {
            None => None,
            Some(f) => {
                let found = table.index_of(&f.switch);
                match found {
                    Some(index) => Some(FireworkTarget { switch: SwitchId(index), interval_ticks: f.interval_ticks, next_show_at: None }),
                    None => None,
                }
            },
        };
        proof {
            if let Some(f) = fireworks {
                crate::tables::lemma_name_index(table.ids@, f.switch@);
            }
        }
        Switches { switches, fields: driven, unswitched_open_fields: unswitched, fireworks: target }
    }

    /// Each switch's hold rule, in switch order.
    pub fn hold_rules(&self) -> (rules: Vec<SwitchHold>)
        ensures
            rules@.len() == self.switches@.len(),
            forall|i: int| 0 <= i < rules@.len() ==> #[trigger] rules@[i] == self.switches@[i].config.held,
    {
        let mut rules: Vec<SwitchHold> = Vec::new();
        let mut i: usize = 0;
        while i < self.switches.len()
            invariant
                i <= self.switches@.len(),
                rules@.len() == i,
                forall|j: int| 0 <= j < i ==> #[trigger] rules@[j] == self.switches@[j].config.held,
            decreases self.switches@.len() - i,
        {
            rules.push(self.switches[i].config.held);
            i = i + 1;
        }
        rules
    }

    /// Bring switch `i` up to date for `logged_in` players and `occupied`;
    /// returns whether its mode changed.
    fn update_mode(&mut self, i: usize, logged_in: usize, occupied: bool) -> (changed: bool)
        requires
            old(self).wf(),
            i < old(self).switches@.len(),
        ensures
            final(self).wf(),
            final(self).same_wiring(old(self)),
            final(self).fireworks == old(self).fireworks,
            final(self).switches@ == old(self).switches@.update(
                i as int,
                mode_step(old(self).switches@[i as int], logged_in as int, occupied).0,
            ),
            changed == mode_step(old(self).switches@[i as int], logged_in as int, occupied).1,
    {
        let mut sw = self.switches[i];
        let toggle = sw.config.activation.is_toggle(logged_in);
        let changed = toggle != sw.toggle;
        if changed || !toggle {
            sw.active = occupied;
        }
        sw.toggle = toggle;
        self.switches.set(i, sw);
        changed
    }

    /// Advance every switch for one tick's inputs, one per switch; returns
    /// the switches flipped by a press, once per flip, in switch order.
    pub fn update(&mut self, logged_in: usize, inputs: &Vec<SwitchInput>) -> (flipped: Vec<SwitchId>)
        requires
            old(self).wf(),
            inputs@.len() == old(self).switches@.len(),
        ensures
            final(self).wf(),
            final(self).same_wiring(old(self)),
            final(self).fireworks == old(self).fireworks,
            final(self).switches@.len() == old(self).switches@.len(),
            forall|i: int|
                0 <= i < old(self).switches@.len() ==> #[trigger] final(self).switches@[i] == update_step(
                    old(self).switches@[i],
                    inputs@[i],
                    logged_in as int,
                ),
            flipped@ == flips(old(self).switches@, inputs@, logged_in as int, old(self).switches@.len() as int),
    {
        let ghost before = self.switches@;
        let mut flipped: Vec<SwitchId> = Vec::new();
        let mut i: usize = 0;
        while i < self.switches.len()
            invariant
                self.wf(),
                self.same_wiring(old(self)),
                self.fireworks == old(self).fireworks,
                before == old(self).switches@,
                inputs@.len() == before.len(),
                self.switches@.len() == before.len(),
                i <= before.len(),
                forall|j: int| 0 <= j < i ==> #[trigger] self.switches@[j] == update_step(before[j], inputs@[j], logged_in as int),
                forall|j: int| i <= j < before.len() ==> #[trigger] self.switches@[j] == before[j],
                flipped@ == flips(before, inputs@, logged_in as int, i as int),
            decreases before.len() - i,
        {
            let input = inputs[i];
            let prev = self.switches[i];
            let changed_mode = self.update_mode(i, logged_in, input.occupied);
            let mut sw = self.switches[i];
            let presses: usize = if sw.toggle && !changed_mode {
                match prev.config.held {
                    SwitchHold::Any => input.presses,
                    SwitchHold::Everyone => if input.occupied && !prev.occupied {
                        1
                    } else {
                        0
                    },
                }
            } else {
                0
            };
            proof {
                assert(presses as int == flip_count(before[i as int], input, logged_in as int));
            }
            let ghost m = sw;
            let ghost start = flipped@;
            let mut k: usize = 0;
            while k < presses
                invariant
                    k <= presses,
                    sw == (Switch { active: if k % 2 == 1 { !m.active } else { m.active }, ..m }),
                    flipped@ == start + Seq::new(k as nat, |x: int| SwitchId(i as u16)),
                decreases presses - k,
            {
                sw.active = !sw.active;
                flipped.push(SwitchId(i as u16));
                proof {
                    assert(flipped@ =~= start + Seq::new((k + 1) as nat, |x: int| SwitchId(i as u16)));
                }
                k = k + 1;
            }
            sw.occupied = input.occupied;
            self.switches.set(i, sw);
            proof {
                assert(flipped@ =~= flips(before, inputs@, logged_in as int, i + 1));
            }
            i = i + 1;
        }
        flipped
    }

    /// A death or departure reset: every toggle switch whose trigger fires
    /// for one of `resets` goes off. Returns the reset switches, ascending.
    /// Switches not reset and whose mode did not change keep the hold they
    /// last saw, so the next update still sees a threshold crossed by the
    /// death or departure.
    pub fn reset(&mut self, resets: &Vec<ResetCounts>, logged_in: usize, inputs: &Vec<SwitchInput>) -> (reset: Vec<
        SwitchId,
    >)
        requires
            old(self).wf(),
            inputs@.len() == old(self).switches@.len(),
        ensures
            final(self).wf(),
            final(self).same_wiring(old(self)),
            final(self).fireworks == old(self).fireworks,
            final(self).switches@.len() == old(self).switches@.len(),
            forall|i: int|
                0 <= i < old(self).switches@.len() ==> #[trigger] final(self).switches@[i] == reset_step(
                    old(self).switches@[i],
                    inputs@[i],
                    logged_in as int,
                    fired_by(old(self).switches@[i].config.reset_on_player_death, resets@),
                ).0,
            reset@ == reset_ids(old(self).switches@, inputs@, logged_in as int, resets@, old(self).switches@.len() as int),
    {
        let ghost before = self.switches@;
        let mut reset: Vec<SwitchId> = Vec::new();
        let mut i: usize = 0;
        while i < self.switches.len()
            invariant
                self.wf(),
                self.same_wiring(old(self)),
                self.fireworks == old(self).fireworks,
                before == old(self).switches@,
                inputs@.len() == before.len(),
                self.switches@.len() == before.len(),
                i <= before.len(),
                forall|j: int|
                    0 <= j < i ==> #[trigger] self.switches@[j] == reset_step(
                        before[j],
                        inputs@[j],
                        logged_in as int,
                        fired_by(before[j].config.reset_on_player_death, resets@),
                    ).0,
                forall|j: int| i <= j < before.len() ==> #[trigger] self.switches@[j] == before[j],
                reset@ == reset_ids(before, inputs@, logged_in as int, resets@, i as int),
            decreases before.len() - i,
        {
            let input = inputs[i];
            let prev = self.switches[i];
            let changed_mode = self.update_mode(i, logged_in, input.occupied);
            let mut sw = self.switches[i];
            let fired = triggered(prev.config.reset_on_player_death, resets);
            let reset_now = sw.toggle && fired;
            if reset_now {
                sw.active = false;
                reset.push(SwitchId(i as u16));
            }
            if reset_now || changed_mode {
                sw.occupied = input.occupied;
            }
            self.switches.set(i, sw);
            i = i + 1;
        }
        reset
    }

    /// Whether a show starts this tick: the fireworks switch is not locked
    /// and is on, and the previous show plus the cooldown have passed. The
    /// next start is then stamped; the stamp is never cleared, so a re-press
    /// during a cooldown waits it out.
    pub fn fireworks_due(&mut self, tick: u32, locked: &Vec<SwitchId>) -> (due: bool)
        requires
            old(self).wf(),
        ensures
            final(self).wf(),
            final(self).same_wiring(old(self)),
            final(self).switches@ == old(self).switches@,
            match old(self).fireworks {
                None => !due && final(self).fireworks is None,
                Some(f) => {
                    &&& due == show_due(old(self).switches@, f, tick, locked@)
                    &&& final(self).fireworks == if due {
                        Some(FireworkTarget { next_show_at: Some(tick_add(tick, f.interval_ticks)), ..f })
                    } else {
                        Some(f)
                    }
                },
            },
    {
        match self.fireworks {
            None => false,
            Some(f) => {
                if contains_switch(locked, f.switch) || !self.switches[f.switch.0 as usize].active {
                    return false;
                }
                match f.next_show_at {
                    Some(at) => {
                        if sequence_is_newer(at, tick) {
                            return false;
                        }
                    },
                    None => {},
                }
                self.fireworks = Some(FireworkTarget { next_show_at: Some(tick.wrapping_add(f.interval_ticks)), ..f });
                true
            },
        }
    }

    /// Whether field `f` is open: no switch drives it and it starts off, or
    /// a switch drives it and is on exactly when the field starts on.
    pub open spec fn opens(&self, f: FieldId) -> bool {
        ||| self.unswitched_open_fields@.contains(f)
        ||| exists|s: int, k: int|
            0 <= s < self.fields@.len() && 0 <= k < self.fields@[s]@.len() && (#[trigger] self.fields@[s]@[k]).0 == f
                && self.switches@[s].active == self.fields@[s]@[k].1
    }

    /// The switches that are on, ascending, and the fields that are open,
    /// ascending.
    pub fn state(&self) -> (state: SwitchState)
        requires
            self.wf(),
        ensures
            state.active_switches@ == active_ids(self.switches@, self.switches@.len() as int),
            forall|a: int, b: int|
                0 <= a < b < state.open_fields@.len() ==> (#[trigger] state.open_fields@[a]).0 < (
                #[trigger] state.open_fields@[b]).0,
            forall|f: FieldId| #[trigger] state.open_fields@.contains(f) <==> self.opens(f),
    {
        let mut active: Vec<SwitchId> = Vec::new();
        let mut open: Vec<u16> = Vec::new();
        let mut u: usize = 0;
        while u < self.unswitched_open_fields.len()
            invariant
                u <= self.unswitched_open_fields@.len(),
                forall|a: int, b: int| 0 <= a < b < open@.len() ==> open@[a] < open@[b],
                forall|x: u16|
                    #[trigger] open@.contains(x) <==> exists|j: int|
                        0 <= j < u && (#[trigger] self.unswitched_open_fields@[j]).0 == x,
            decreases self.unswitched_open_fields@.len() - u,
        {
            let ghost prev = open@;
            crate::bridges::insert_kind(&mut open, self.unswitched_open_fields[u].0);
            proof {
                assert forall|x: u16| #[trigger] open@.contains(x) <==> exists|j: int|
                    0 <= j < u + 1 && (#[trigger] self.unswitched_open_fields@[j]).0 == x by {
                    if x == self.unswitched_open_fields@[u as int].0 {
                        assert(self.unswitched_open_fields@[u as int].0 == x);
                    }
                }
            }
            u = u + 1;
        }
        let mut s: usize = 0;
        while s < self.switches.len()
            invariant
                self.wf(),
                s <= self.switches@.len(),
                active@ == active_ids(self.switches@, s as int),
                forall|a: int, b: int| 0 <= a < b < open@.len() ==> open@[a] < open@[b],
                forall|x: u16|
                    #[trigger] open@.contains(x) <==> (exists|j: int|
                        0 <= j < self.unswitched_open_fields@.len() && (#[trigger] self.unswitched_open_fields@[j]).0
                            == x) || (exists|t: int, k: int|
                        0 <= t < s && 0 <= k < self.fields@[t]@.len() && (#[trigger] self.fields@[t]@[k]).0.0 == x
                            && self.switches@[t].active == self.fields@[t]@[k].1),
            decreases self.switches@.len() - s,
        {
            let on = self.switches[s].active;
            if on {
                active.push(SwitchId(s as u16));
            }
            let list = &self.fields[s];
            let mut k: usize = 0;
            while k < list.len()
                invariant
                    self.wf(),
                    s < self.switches@.len(),
                    *list == self.fields@[s as int],
                    on == self.switches@[s as int].active,
                    k <= list@.len(),
                    forall|a: int, b: int| 0 <= a < b < open@.len() ==> open@[a] < open@[b],
                    forall|x: u16|
                        #[trigger] open@.contains(x) <==> (exists|j: int|
                            0 <= j < self.unswitched_open_fields@.len() && (#[trigger] self.unswitched_open_fields@[j]).0
                                == x) || (exists|t: int, q: int|
                            0 <= t < s && 0 <= q < self.fields@[t]@.len() && (#[trigger] self.fields@[t]@[q]).0.0 == x
                                && self.switches@[t].active == self.fields@[t]@[q].1) || (exists|q: int|
                            0 <= q < k && (#[trigger] list@[q]).0.0 == x && on == list@[q].1),
                decreases list@.len() - k,
            {
                let (id, initially_on) = list[k];
                if on == initially_on {
                    crate::bridges::insert_kind(&mut open, id.0);
                }
                proof {
                    assert forall|x: u16|
                        #[trigger] open@.contains(x) <==> (exists|j: int|
                            0 <= j < self.unswitched_open_fields@.len() && (#[trigger] self.unswitched_open_fields@[j]).0
                                == x) || (exists|t: int, q: int|
                            0 <= t < s && 0 <= q < self.fields@[t]@.len() && (#[trigger] self.fields@[t]@[q]).0.0 == x
                                && self.switches@[t].active == self.fields@[t]@[q].1) || (exists|q: int|
                            0 <= q < k + 1 && (#[trigger] list@[q]).0.0 == x && on == list@[q].1) by {
                        if x == id.0 && on == initially_on {
                            assert(list@[k as int].0.0 == x);
                        }
                    }
                }
                k = k + 1;
            }
            proof {
                assert forall|x: u16|
                    #[trigger] open@.contains(x) <==> (exists|j: int|
                        0 <= j < self.unswitched_open_fields@.len() && (#[trigger] self.unswitched_open_fields@[j]).0
                            == x) || (exists|t: int, q: int|
                        0 <= t < s + 1 && 0 <= q < self.fields@[t]@.len() && (#[trigger] self.fields@[t]@[q]).0.0 == x
                            && self.switches@[t].active == self.fields@[t]@[q].1) by {
                    if exists|q: int| 0 <= q < list@.len() && (#[trigger] list@[q]).0.0 == x && on == list@[q].1 {
                        let q = choose|q: int| 0 <= q < list@.len() && (#[trigger] list@[q]).0.0 == x && on == list@[q].1;
                        assert(self.fields@[s as int]@[q].0.0 == x);
                    }
                    if exists|t: int, q: int|
                        0 <= t < s + 1 && 0 <= q < self.fields@[t]@.len() && (#[trigger] self.fields@[t]@[q]).0.0 == x
                            && self.switches@[t].active == self.fields@[t]@[q].1 {
                        let (t, q) = choose|t: int, q: int|
                            0 <= t < s + 1 && 0 <= q < self.fields@[t]@.len() && (#[trigger] self.fields@[t]@[q]).0.0 == x
                                && self.switches@[t].active == self.fields@[t]@[q].1;
                        if t == s {
                            assert(list@[q].0.0 == x);
                        }
                    }
                }
            }
            s = s + 1;
        }
        let mut open_fields: Vec<FieldId> = Vec::new();
        let mut j: usize = 0;
        while j < open.len()
            invariant
                j <= open@.len(),
                open_fields@.len() == j,
                forall|a: int| 0 <= a < j ==> (#[trigger] open_fields@[a]).0 == open@[a],
            decreases open@.len() - j,
        {
            open_fields.push(FieldId(open[j]));
            j = j + 1;
        }
        proof {
            assert forall|f: FieldId| #[trigger] open_fields@.contains(f) <==> self.opens(f) by {
                if open_fields@.contains(f) {
                    let a = choose|a: int| 0 <= a < open_fields@.len() && open_fields@[a] == f;
                    assert(open@.contains(f.0));
                }
                if open@.contains(f.0) {
                    let a = choose|a: int| 0 <= a < open@.len() && open@[a] == f.0;
                    assert(open_fields@[a] == f);
                }
                if self.unswitched_open_fields@.contains(f) {
                    let j = choose|j: int| 0 <= j < self.unswitched_open_fields@.len() && self.unswitched_open_fields@[j] == f;
                    assert(self.unswitched_open_fields@[j].0 == f.0);
                }
                if exists|j: int|
                    0 <= j < self.unswitched_open_fields@.len() && (#[trigger] self.unswitched_open_fields@[j]).0 == f.0 {
                    let j = choose|j: int|
                        0 <= j < self.unswitched_open_fields@.len() && (#[trigger] self.unswitched_open_fields@[j]).0 == f.0;
                    assert(self.unswitched_open_fields@[j] == f);
                }
            }
        }
        SwitchState { active_switches: active, open_fields }
    }
}

pub open spec fn show_due(sws: Seq<Switch>, f: FireworkTarget, tick: u32, locked: Seq<SwitchId>) -> bool {
    &&& !locked.contains(f.switch)
    &&& sws[f.switch.0 as int].active
    &&& !(f.next_show_at matches Some(at) && newer(at, tick))
}

/// The ids of the first `n` switches that are on, ascending.
pub open spec fn active_ids(sws: Seq<Switch>, n: int) -> Seq<SwitchId>
    decreases n,
{
    if n <= 0 {
        Seq::empty()
    } else if sws[n - 1].active {
        active_ids(sws, n - 1).push(SwitchId((n - 1) as u16))
    } else {
        active_ids(sws, n - 1)
    }
}

pub fn contains_switch(list: &Vec<SwitchId>, id: SwitchId) -> (found: bool)
    ensures
        found == list@.contains(id),
{
    let mut i: usize = 0;
    while i < list.len()
        invariant
            i <= list@.len(),
            forall|j: int| 0 <= j < i ==> list@[j] != id,
        decreases list@.len() - i,
    {
        if list[i].0 == id.0 {
            assert(list@[i as int] == id);
            return true;
        }
        i = i + 1;
    }
    false
}

} // verus!
