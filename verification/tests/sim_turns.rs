use amoeba_rl::sim::actors::{is_npc, is_nucleus_family, Extra};
use amoeba_rl::sim::grid::{Coord, Dir};
use amoeba_rl::sim::{Command, Difficulty, InputStyle, Phase, Sim, UiMode};

/// A sim mid-run, started the way a player starts one.
fn playing(seed: u64) -> Sim {
    let mut sim = Sim::new(seed, Difficulty::Normal);
    sim.advance(Some(Command::Start(Difficulty::Normal)));
    sim
}

#[test]
fn starting_generates_a_map_and_hands_over_control() {
    let sim = playing(42);
    assert_eq!(sim.phase(), Phase::Playing);
    assert!(sim.is_player_turn());
    assert_eq!(sim.mass(), 6);
    assert!(sim.active_nucleus().is_some());
}

#[test]
fn the_scheduler_hands_the_first_turn_to_a_nucleus() {
    let sim = playing(9);
    let active = sim.active_nucleus().expect("a nucleus is in charge");
    assert!(is_nucleus_family(sim.actors().get(active).unwrap().kind));
    assert_eq!(sim.schedule().time(), 16);
}

#[test]
fn examine_mode_starts_on_the_active_nucleus() {
    let mut sim = playing(11);
    let active = sim.active_nucleus().unwrap();
    sim.advance(Some(Command::ToggleExamine));
    assert_eq!(sim.cursor(), Some(sim.actors().get(active).unwrap().pos));
    assert_eq!(sim.mode(), UiMode::Examine);
    sim.advance(Some(Command::ToggleExamine));
    assert_eq!(sim.cursor(), None);
}

#[test]
fn the_examine_cursor_is_clamped_to_the_map() {
    let mut sim = playing(12);
    sim.advance(Some(Command::ToggleExamine));
    for _ in 0..100 {
        sim.advance(Some(Command::MoveCursor(Dir::Up)));
        sim.advance(Some(Command::MoveCursor(Dir::Left)));
    }
    assert_eq!(sim.cursor(), Some(Coord::new(0, 0)));
}

#[test]
fn opening_a_panel_does_not_cost_a_turn() {
    let mut sim = playing(13);
    let before = sim.schedule().time();
    sim.advance(Some(Command::ToggleOrganelles));
    sim.advance(Some(Command::ScrollOrganelles(1)));
    sim.advance(Some(Command::CycleNucleus { forward: true }));
    sim.advance(Some(Command::Help));
    assert_eq!(sim.schedule().time(), before);
    assert!(sim.is_player_turn());
}

#[test]
fn the_help_a_touchscreen_gets_never_names_a_key() {
    let mut sim = Sim::new(21, Difficulty::Normal);
    sim.set_input_style(InputStyle::Touch);
    sim.advance(Some(Command::Start(Difficulty::Normal)));
    let log = sim.messages().lines().join(" ").to_lowercase();
    for key in ["arrow key", "space", "esc", "press "] {
        assert!(!log.contains(key), "the touch help still says {key:?}");
    }
    for word in ["wait", "look", "list", "prev", "next"] {
        assert!(log.contains(word), "the touch help never says {word:?}");
    }
}

#[test]
fn a_keyboard_still_gets_told_which_keys() {
    let sim = playing(21);
    let log = sim.messages().lines().join(" ");
    assert!(log.contains("Arrow keys"));
    assert!(log.contains("Space"));
}

#[test]
fn waiting_always_costs_a_turn() {
    let mut sim = playing(14);
    let before = sim.schedule().time();
    sim.advance(Some(Command::Wait));
    assert_eq!(sim.schedule().time(), before + 16);
    assert!(sim.is_player_turn());
}

#[test]
fn waves_actually_arrive_and_the_gates_count_down() {
    let mut sim = playing(31);
    for _ in 0..60 {
        sim.advance(Some(Command::Wait));
    }
    let humans = sim.actors().iter().into_iter().filter(|(_, a)| is_npc(a.kind)).count();
    assert!(humans > 0, "the first wave is out by turn sixty");
    let mut queued = 0usize;
    let mut waves = 0i32;
    for id in sim.cities() {
        if let Some(a) = sim.actors().get(*id) {
            if let Extra::City(state) = &a.extra {
                queued += state.queue.len();
                waves += state.wave_number;
            }
        }
    }
    assert_eq!(waves, 12, "one wave out of each of the twelve gates");
    assert!(humans + queued >= 12, "and at least one human each");
}

#[test]
fn a_fresh_map_is_not_reported_as_news() {
    let sim = playing(5);
    assert!(sim.effects().is_empty());
    assert!(sim.mass() > 0, "something really was placed");
}

#[test]
fn effects_of_a_flow_live_for_exactly_one_advance() {
    let mut flowed = 0;
    for seed in 0..10 {
        let mut sim = playing(seed);
        // The first nucleus sits where the mass was seeded, usually deep in
        // a dead end; the second is on its open edge.
        sim.advance(Some(Command::CycleNucleus { forward: true }));
        let a = sim.active_nucleus().unwrap();
        let p = sim.actors().get(a).unwrap().pos;
        let open = [Dir::Up, Dir::Down, Dir::Left, Dir::Right].into_iter().find(|d| {
            let o = d.offset();
            let c = Coord::new(p.x + o.x, p.y + o.y);
            sim.grid().walkable(c) && sim.actor_at(c).is_none() && sim.item_at(c).is_none()
        });
        let Some(dir) = open else { continue };
        flowed += 1;
        sim.advance(Some(Command::Move(dir)));
        assert!(!sim.effects().is_empty(), "seed {seed}: a flow reported nothing");
        sim.advance(Some(Command::ToggleOrganelles));
        assert!(sim.effects().is_empty(), "opening a panel changes nothing and should report nothing");
    }
    assert!(flowed > 0, "no nucleus had open floor beside it");
}

#[test]
fn commands_before_a_run_are_ignored() {
    let mut sim = Sim::new(3, Difficulty::Normal);
    sim.advance(Some(Command::Wait));
    sim.advance(Some(Command::Move(Dir::Up)));
    sim.advance(None);
    assert_eq!(sim.phase(), Phase::Title);
    assert_eq!(sim.mass(), 0);
    assert!(sim.actors().is_empty());
}

#[test]
fn a_restart_is_ignored_while_a_run_is_on() {
    let mut sim = playing(17);
    let before = sim.schedule().time();
    let mass = sim.mass();
    sim.advance(Some(Command::Restart { seed: 99 }));
    assert_eq!(sim.schedule().time(), before);
    assert_eq!(sim.mass(), mass);
    assert_eq!(sim.seed(), 17);
}

#[test]
fn a_long_wait_keeps_the_player_in_charge() {
    let mut sim = playing(8);
    let mut last = sim.schedule().time();
    for _ in 0..40 {
        sim.advance(Some(Command::Wait));
        if sim.phase() != Phase::Playing {
            break;
        }
        assert!(sim.is_player_turn());
        assert!(sim.schedule().time() >= last, "the clock never runs back");
        last = sim.schedule().time();
        let active = sim.active_nucleus().expect("somebody is in charge");
        assert!(is_nucleus_family(sim.actors().get(active).unwrap().kind));
    }
}



#[test]
fn starting_from_the_title_takes_the_chosen_rules_and_leaves_the_title() {
    let mut sim = Sim::new(7, Difficulty::Normal);
    assert!(matches!(sim.phase(), Phase::Title));
    sim.advance(Some(Command::Start(Difficulty::Easy)));
    assert_eq!(sim.rules(), Difficulty::Easy.rules());
    assert!(!matches!(sim.phase(), Phase::Title));
}
