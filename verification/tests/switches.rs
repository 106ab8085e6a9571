use cuboid_map::grid::PressurePlateRuntime;
use cuboid_map::ids::{BarrierKindId, BridgeKindId, CarrierId, FieldId, PlayerId, SwitchId};
use cuboid_map::plates::{PlateVisitor, plate_holders, PressurePlateInputs, held_count_per_switch, plate_active, plate_cues, presser_of_switch};
use cuboid_map::pressure_switches::{KindDef, PressureSwitches};
use cuboid_map::switches::{
    Activation, DeathTrigger, FieldDef, FireworksSchedule, ResetCounts, SwitchConfig, SwitchDef, SwitchHold,
    Switches, firework_plates_ready, sequence_is_newer, triggered,
};
use cuboid_map::tables::NameTable;

fn plate_of(col: i32, switch: u16) -> PressurePlateRuntime {
    PressurePlateRuntime { carrier: CarrierId(0), level: 0, col, row: 0, switch: SwitchId(switch) }
}

fn config(activation: Activation, held: SwitchHold, reset: DeathTrigger) -> SwitchConfig {
    SwitchConfig { activation, held, reset_on_player_death: reset }
}

// One switch, `lobby`, with one plate at column 0.
fn lobby(policy: SwitchConfig) -> (Switches, PressurePlateInputs, Vec<PressurePlateRuntime>) {
    let defs = vec![SwitchDef { id: "lobby".into(), policy }];
    let table = NameTable { ids: vec!["lobby".into()] };
    let switches = Switches::new(&defs, &Vec::new(), &table, None);
    (switches, PressurePlateInputs::new(), vec![plate_of(0, 0)])
}

fn on(switches: &Switches) -> bool {
    switches.switches[0].active
}

#[test]
fn firework_needs_every_player_when_plates_suffice() {
    assert!(!firework_plates_ready(3, 1, 2));
    assert!(firework_plates_ready(3, 2, 2));
    assert!(firework_plates_ready(1, 1, 1));
}

#[test]
fn firework_needs_every_plate_when_players_outnumber_them() {
    assert!(!firework_plates_ready(2, 1, 5));
    assert!(firework_plates_ready(2, 2, 5));
}

#[test]
fn no_firework_plates_never_fire() {
    assert!(!firework_plates_ready(0, 0, 3));
}

#[test]
fn no_players_never_fire() {
    assert!(!firework_plates_ready(2, 0, 0));
}

#[test]
fn presser_prefers_a_fresh_press_over_a_standing_holder() {
    let plates = vec![plate_of(0, 0), plate_of(1, 0), plate_of(2, 1)];
    let holders = vec![(0, PlayerId(1)), (1, PlayerId(2)), (2, PlayerId(3))];
    let prev_held = vec![0];
    assert_eq!(presser_of_switch(SwitchId(0), &holders, &prev_held, &plates), Some(PlayerId(2)));
    assert_eq!(presser_of_switch(SwitchId(1), &holders, &prev_held, &plates), Some(PlayerId(3)));
    assert_eq!(presser_of_switch(SwitchId(2), &holders, &prev_held, &plates), None);
}

#[test]
fn a_standing_holder_gets_credit_without_a_fresh_press() {
    let plates = vec![plate_of(0, 0)];
    let holders = vec![(0, PlayerId(7))];
    assert_eq!(presser_of_switch(SwitchId(0), &holders, &vec![0], &plates), Some(PlayerId(7)));
}

#[test]
fn two_players_on_one_plate_produce_one_toggle_until_everyone_releases_it() {
    let (mut switches, mut inputs, plates) = lobby(config(Activation::Toggle, SwitchHold::Any, DeathTrigger::Never));
    let edges = inputs.update(&mut switches, 1, 1, vec![0], &plates);
    assert_eq!(edges.flipped, vec![SwitchId(0)]);
    assert!(on(&switches));
    // The second player joins the first on the plate: still one plate held.
    inputs.update(&mut switches, 2, 2, vec![0], &plates);
    assert!(on(&switches));
    inputs.update(&mut switches, 2, 2, vec![0], &plates);
    assert!(on(&switches));
    let edges = inputs.update(&mut switches, 2, 2, vec![], &plates);
    assert!(edges.flipped.is_empty());
    assert!(on(&switches));
    inputs.update(&mut switches, 2, 2, vec![0], &plates);
    assert!(!on(&switches));
}

#[test]
fn momentary_follows_its_plates() {
    let (mut switches, mut inputs, plates) =
        lobby(config(Activation::Momentary, SwitchHold::Any, DeathTrigger::Any));
    inputs.update(&mut switches, 1, 1, vec![0], &plates);
    assert!(on(&switches));
    inputs.update(&mut switches, 1, 1, vec![0], &plates);
    assert!(on(&switches));
    let edges = inputs.update(&mut switches, 1, 1, vec![], &plates);
    assert!(edges.flipped.is_empty());
    assert!(!on(&switches));
}

#[test]
fn auto_toggles_alone_and_is_momentary_in_company() {
    let (mut switches, mut inputs, plates) = lobby(config(Activation::Auto, SwitchHold::Any, DeathTrigger::Never));
    inputs.update(&mut switches, 1, 1, vec![0], &plates);
    assert!(on(&switches));
    inputs.update(&mut switches, 1, 1, vec![], &plates);
    assert!(on(&switches), "a lone player's toggle persists off the plate");
    // A second player logs in: the switch turns momentary and follows the plates.
    inputs.update(&mut switches, 2, 2, vec![], &plates);
    assert!(!on(&switches));
    inputs.update(&mut switches, 2, 2, vec![0], &plates);
    assert!(on(&switches));
    // The partner leaves while the plate is held: the toggle starts from the hold.
    inputs.update(&mut switches, 1, 1, vec![0], &plates);
    assert!(on(&switches));
}

#[test]
fn death_reset_requires_a_fresh_press() {
    let (mut switches, mut inputs, plates) = lobby(config(Activation::Toggle, SwitchHold::Any, DeathTrigger::Solo));
    inputs.update(&mut switches, 1, 1, vec![0], &plates);
    assert!(on(&switches));
    let resets = vec![ResetCounts { logged_in: 1, alive: 0 }];
    let held = vec![0];
    inputs.reset(&mut switches, &resets, 1, 0, &held, &plates);
    assert!(!on(&switches));
    inputs.update(&mut switches, 1, 1, vec![0], &plates);
    assert!(!on(&switches), "a held plate does not press again after a reset");
    inputs.update(&mut switches, 1, 1, vec![], &plates);
    inputs.update(&mut switches, 1, 1, vec![0], &plates);
    assert!(on(&switches));
}

#[test]
fn death_policies_distinguish_solo_any_and_all() {
    assert!(!triggered(DeathTrigger::Never, &vec![ResetCounts { logged_in: 1, alive: 0 }]));
    assert!(triggered(DeathTrigger::Solo, &vec![ResetCounts { logged_in: 1, alive: 0 }]));
    assert!(!triggered(DeathTrigger::Solo, &vec![ResetCounts { logged_in: 2, alive: 1 }]));
    assert!(triggered(DeathTrigger::Any, &vec![ResetCounts { logged_in: 2, alive: 1 }]));
    assert!(!triggered(DeathTrigger::All, &vec![ResetCounts { logged_in: 2, alive: 1 }]));
    assert!(triggered(
        DeathTrigger::All,
        &vec![ResetCounts { logged_in: 2, alive: 1 }, ResetCounts { logged_in: 2, alive: 0 }]
    ));
    assert!(!triggered(DeathTrigger::Any, &vec![]));
}

#[test]
fn momentary_ignores_its_reset_policy() {
    let (mut switches, mut inputs, plates) =
        lobby(config(Activation::Momentary, SwitchHold::Any, DeathTrigger::Any));
    inputs.update(&mut switches, 2, 2, vec![0], &plates);
    assert!(on(&switches));
    inputs.reset(&mut switches, &vec![ResetCounts { logged_in: 2, alive: 1 }], 2, 1, &vec![0], &plates);
    assert!(on(&switches));
}

#[test]
fn everyone_toggle_flips_once_all_living_players_stand_on_plates() {
    let defs = vec![SwitchDef {
        id: "gate".into(),
        policy: config(Activation::Toggle, SwitchHold::Everyone, DeathTrigger::Never),
    }];
    let table = NameTable { ids: vec!["gate".into()] };
    let mut switches = Switches::new(&defs, &Vec::new(), &table, None);
    let mut inputs = PressurePlateInputs::new();
    let plates = vec![plate_of(0, 0), plate_of(1, 0), plate_of(2, 0)];
    inputs.update(&mut switches, 2, 2, vec![0], &plates);
    assert!(!on(&switches), "one of two players is not everyone");
    inputs.update(&mut switches, 2, 2, vec![0, 1], &plates);
    assert!(on(&switches));
    inputs.update(&mut switches, 2, 2, vec![1, 2], &plates);
    assert!(on(&switches), "moving between plates keeps the hold");
    inputs.update(&mut switches, 2, 2, vec![1], &plates);
    inputs.update(&mut switches, 2, 2, vec![0, 1], &plates);
    assert!(!on(&switches));
}

#[test]
fn fields_open_when_their_switch_leaves_its_initial_state() {
    let defs = vec![SwitchDef {
        id: "red".into(),
        policy: config(Activation::Momentary, SwitchHold::Any, DeathTrigger::Never),
    }];
    let fields = vec![
        FieldDef { id: "red".into(), switch: Some("red".into()), initially_on: true },
        FieldDef { id: "blue".into(), switch: None, initially_on: false },
        FieldDef { id: "green".into(), switch: None, initially_on: true },
    ];
    let table = NameTable { ids: vec!["red".into()] };
    let mut switches = Switches::new(&defs, &fields, &table, None);
    let mut inputs = PressurePlateInputs::new();
    let plates = vec![plate_of(0, 0)];
    let state = switches.state();
    assert!(state.active_switches.is_empty());
    assert_eq!(state.open_fields, vec![FieldId(1)]);
    inputs.update(&mut switches, 1, 1, vec![0], &plates);
    let state = switches.state();
    assert_eq!(state.active_switches, vec![SwitchId(0)]);
    assert_eq!(state.open_fields, vec![FieldId(0), FieldId(1)]);
}

#[test]
fn fireworks_start_when_on_and_wait_for_the_cooldown() {
    let defs = vec![SwitchDef {
        id: "fireworks".into(),
        policy: config(Activation::Momentary, SwitchHold::Any, DeathTrigger::Never),
    }];
    let table = NameTable { ids: vec!["fireworks".into()] };
    let schedule = FireworksSchedule { switch: "fireworks".into(), interval_ticks: 100 };
    let mut switches = Switches::new(&defs, &Vec::new(), &table, Some(&schedule));
    let mut inputs = PressurePlateInputs::new();
    let plates = vec![plate_of(0, 0)];
    assert!(!switches.fireworks_due(5, &vec![]), "off: no show");
    inputs.update(&mut switches, 1, 1, vec![0], &plates);
    assert!(!switches.fireworks_due(10, &vec![SwitchId(0)]), "locked: no show");
    assert!(switches.fireworks_due(10, &vec![]));
    assert!(!switches.fireworks_due(11, &vec![]));
    assert!(!switches.fireworks_due(109, &vec![]));
    assert!(switches.fireworks_due(110, &vec![]));
}

#[test]
fn tick_order_wraps_around_the_counter() {
    assert!(sequence_is_newer(5, 3));
    assert!(!sequence_is_newer(3, 5));
    assert!(!sequence_is_newer(7, 7));
    assert!(sequence_is_newer(2, u32::MAX - 1));
    assert!(!sequence_is_newer(0x8000_0000, 0));
}

#[test]
fn plate_cues_report_presses_and_releases() {
    assert_eq!(plate_cues(&vec![0], &vec![]), (true, false));
    assert_eq!(plate_cues(&vec![], &vec![0]), (false, true));
    assert_eq!(plate_cues(&vec![0], &vec![0]), (false, false));
    assert_eq!(plate_cues(&vec![1], &vec![0]), (true, true));
}

#[test]
fn a_plate_powers_only_the_kinds_wired_to_its_switch() {
    let defs = vec![
        SwitchDef { id: "lobby".into(), policy: config(Activation::Toggle, SwitchHold::Any, DeathTrigger::Never) },
        SwitchDef { id: "sky".into(), policy: config(Activation::Toggle, SwitchHold::Any, DeathTrigger::Never) },
    ];
    let table = NameTable { ids: vec!["lobby".into(), "sky".into()] };
    let barrier_kinds = vec![KindDef { id: "red".into(), switch: Some("lobby".into()) }];
    let bridge_kinds = vec![
        KindDef { id: "skyway".into(), switch: Some("sky".into()) },
        KindDef { id: "loose".into(), switch: None },
    ];
    let mut ps = PressureSwitches::new(&defs, &barrier_kinds, &bridge_kinds, &Vec::new(), &table, None);
    let plates = vec![plate_of(0, 0), plate_of(1, 1)];
    ps.update(1, 1, vec![1], &plates);
    let state = ps.state();
    assert_eq!(state.active_switches, vec![SwitchId(1)]);
    assert!(state.open_barrier_kinds.is_empty());
    assert_eq!(state.powered_bridge_kinds, vec![BridgeKindId(0)]);
    ps.update(1, 1, vec![0], &plates);
    let state = ps.state();
    assert_eq!(state.active_switches, vec![SwitchId(0), SwitchId(1)]);
    assert_eq!(state.open_barrier_kinds, vec![BarrierKindId(0)]);
}

#[test]
fn plates_of_a_locked_switch_are_not_there() {
    let plate = plate_of(0, 2);
    assert!(plate_active(&plate, &vec![]));
    assert!(plate_active(&plate, &vec![SwitchId(1)]));
    assert!(!plate_active(&plate, &vec![SwitchId(1), SwitchId(2)]));
}

#[test]
fn held_plates_are_counted_per_switch() {
    let plates = vec![plate_of(0, 0), plate_of(1, 0), plate_of(2, 2)];
    assert_eq!(held_count_per_switch(&vec![0, 1, 2], &plates, 3), vec![2, 0, 1]);
    assert_eq!(held_count_per_switch(&vec![2], &plates, 2), vec![0, 0]);
}

#[test]
fn the_first_standing_player_holds_a_plate_and_locked_plates_are_not_there() {
    let plates = vec![plate_of(0, 0), plate_of(1, 1), plate_of(2, 0)];
    let visitor = |id: u32, present: bool, on: Vec<bool>| PlateVisitor { id: PlayerId(id), carrier: 0, present, on };
    let players = vec![
        visitor(7, true, vec![false, true, true]),
        visitor(8, true, vec![true, true, true]),
        visitor(9, false, vec![true, false, false]),
    ];
    let holders = plate_holders(&players, &plates, &vec![]);
    assert_eq!(holders, vec![(1, PlayerId(7)), (2, PlayerId(7)), (0, PlayerId(8))]);
    let holders = plate_holders(&players, &plates, &vec![SwitchId(1)]);
    assert_eq!(holders, vec![(2, PlayerId(7)), (0, PlayerId(8))]);
    let elsewhere = vec![PlateVisitor { id: PlayerId(1), carrier: 3, present: true, on: vec![true, true, true] }];
    assert!(plate_holders(&elsewhere, &plates, &vec![]).is_empty());
}
