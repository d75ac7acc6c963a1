use amoeba_rl::sim::actors::{ActorId, Extra, Intent, IntentKind, Kind};
use amoeba_rl::sim::grid::Coord;
use amoeba_rl::sim::humans::Sought;
use amoeba_rl::sim::{Phase, Sim};

fn pos(sim: &Sim, id: ActorId) -> Coord {
    sim.actors().get(id).expect("alive").pos
}

fn intent(sim: &Sim, id: ActorId) -> Option<Intent> {
    sim.actors().get(id).expect("alive").intent
}

fn alive(sim: &Sim, id: ActorId) -> bool {
    sim.actors().contains(id)
}

#[test]
fn sight_is_a_diamond_that_rock_stops() {
    let mut sim = Sim::sandbox(1);
    let militia = sim.add_actor(Kind::Militia, Coord::new(5, 5));
    let far = sim.add_actor(Kind::Cytoplasm, Coord::new(10, 5));
    let near = sim.add_actor(Kind::Cytoplasm, Coord::new(7, 5));
    assert!(sim.seen(militia, Sought::Mass).contains(&near));
    assert!(!sim.seen(militia, Sought::Mass).contains(&far), "awareness four stops at four cells");
    sim.set_props(Coord::new(6, 5), false, false, true);
    assert!(!sim.seen(militia, Sought::Mass).contains(&near), "it saw straight through the rock");
}

#[test]
fn a_human_that_loses_sight_of_you_walks_to_where_you_were() {
    let mut sim = Sim::sandbox(48);
    let militia = sim.add_actor(Kind::Militia, Coord::new(5, 5));
    let cyto = sim.add_actor(Kind::Cytoplasm, Coord::new(8, 5));
    sim.human_act(militia);
    assert_eq!(sim.rumors().len(), 1, "it reported what it saw");
    for y in 3..8 {
        sim.set_props(Coord::new(7, y), false, false, true);
    }
    assert!(sim.seen(militia, Sought::Mass).is_empty());
    for _ in 0..3 {
        sim.human_act(militia);
    }
    assert!(pos(&sim, militia).x > 5, "it went to look where the report put them: {:?}", pos(&sim, militia));
    assert!(alive(&sim, cyto), "and has not got there yet");
}

#[test]
fn a_militia_declares_a_step_and_then_takes_it() {
    let mut sim = Sim::sandbox(2);
    let militia = sim.add_actor(Kind::Militia, Coord::new(5, 5));
    let cyto = sim.add_actor(Kind::Cytoplasm, Coord::new(7, 5));
    sim.add_actor(Kind::Nucleus, Coord::new(15, 15));
    sim.human_act(militia);
    assert_eq!(pos(&sim, militia), Coord::new(5, 5), "it has not moved");
    assert_eq!(intent(&sim, militia), Some(Intent { kind: IntentKind::Step, at: Coord::new(6, 5) }));
    sim.human_act(militia);
    assert_eq!(pos(&sim, militia), Coord::new(6, 5), "it closed in");
    assert_eq!(intent(&sim, militia), Some(Intent { kind: IntentKind::Strike, at: Coord::new(7, 5) }));
    sim.human_act(militia);
    assert!(!alive(&sim, cyto), "and then destroyed the cell");
}

#[test]
fn a_militia_with_nowhere_to_be_holds_the_ground_it_is_on() {
    let mut sim = Sim::sandbox(3);
    let militia = sim.add_actor(Kind::Militia, Coord::new(5, 5));
    let mut moved = 0;
    for _ in 0..40 {
        let before = pos(&sim, militia);
        sim.human_act(militia);
        if pos(&sim, militia) != before {
            moved += 1;
        }
    }
    assert!(moved > 8, "it moved on {moved} of forty turns");
    assert!(moved < 40, "and stood still on some of them");
}

#[test]
fn a_caravan_runs_away() {
    let mut sim = Sim::sandbox(4);
    let caravan = sim.add_actor(Kind::Caravan, Coord::new(5, 5));
    sim.add_actor(Kind::Nucleus, Coord::new(3, 5));
    for _ in 0..6 {
        sim.human_act(caravan);
    }
    assert!(pos(&sim, caravan).x > 5, "it put distance between us: {:?}", pos(&sim, caravan));
}

#[test]
fn a_caravan_makes_for_a_far_gate_and_leaves_through_it() {
    let mut sim = Sim::sandbox(40);
    let gate = sim.add_actor(Kind::City, Coord::new(19, 5));
    let caravan = sim.add_actor(Kind::Caravan, Coord::new(3, 5));
    for _ in 0..40 {
        if !alive(&sim, caravan) {
            break;
        }
        sim.human_act(caravan);
    }
    assert!(!alive(&sim, caravan), "it never got away");
    assert!(alive(&sim, gate), "and its way out is still standing");
    assert!(sim.messages().lines().iter().any(|line| line.contains("slips through") && line.contains("gate with its cargo")));
}

#[test]
fn seeing_the_mass_is_what_starts_a_rumor() {
    let mut sim = Sim::sandbox(44);
    let scout = sim.add_actor(Kind::Scout, Coord::new(5, 5));
    sim.add_actor(Kind::Cytoplasm, Coord::new(7, 5));
    assert!(sim.rumors().is_empty());
    sim.human_act(scout);
    assert_eq!(sim.rumors().len(), 1, "it told everybody");
    assert_eq!(sim.rumors()[0].pos, Coord::new(7, 5));
}

#[test]
fn a_hunter_walks_down_the_freshest_rumor() {
    let mut sim = Sim::sandbox(42);
    let hunter = sim.add_actor(Kind::Hunter, Coord::new(5, 5));
    sim.raise_rumor(Coord::new(15, 5));
    for _ in 0..3 {
        sim.human_act(hunter);
    }
    assert!(pos(&sim, hunter).x > 5, "it went to look: {:?}", pos(&sim, hunter));
}

#[test]
fn an_engulfed_human_does_not_get_to_act() {
    let mut sim = Sim::sandbox(5);
    let militia = sim.add_actor(Kind::Militia, Coord::new(1, 1));
    sim.add_actor(Kind::Cytoplasm, Coord::new(2, 1));
    sim.add_actor(Kind::Cytoplasm, Coord::new(1, 2));
    sim.human_act(militia);
    assert!(!alive(&sim, militia));
    let corpse = sim.actor_at(Coord::new(1, 1)).expect("a corpse");
    assert_eq!(sim.actors().get(corpse).unwrap().kind, Kind::DissolvingMilitia);
}

#[test]
fn a_hunter_declares_a_shot_before_it_paints_one() {
    let mut sim = Sim::sandbox(6);
    let hunter = sim.add_actor(Kind::Hunter, Coord::new(5, 5));
    let victim = sim.add_actor(Kind::Cytoplasm, Coord::new(7, 5));
    sim.add_actor(Kind::Nucleus, Coord::new(15, 15));
    sim.human_act(hunter);
    assert!(sim.reticles().is_empty(), "nothing is painted yet");
    assert_eq!(intent(&sim, hunter), Some(Intent { kind: IntentKind::Aim, at: Coord::new(7, 5) }));
    sim.human_act(hunter);
    assert!(sim.reticles().iter().any(|r| r.pos == Coord::new(7, 5)));
    let Extra::Ranged(state) = sim.actors().get(hunter).unwrap().extra.clone() else {
        panic!("a hunter aims")
    };
    assert_eq!(state.firing, 0);
    assert_eq!(state.direction, Coord::new(1, 0));
    assert_eq!(intent(&sim, hunter).map(|i| i.kind), Some(IntentKind::Fire));
    assert!(alive(&sim, victim));
    sim.human_act(hunter);
    assert!(!alive(&sim, victim));
    assert!(sim.reticles().is_empty(), "the line is cleared");
    let Extra::Ranged(state) = sim.actors().get(hunter).unwrap().extra.clone() else {
        panic!("a hunter reloads")
    };
    assert_eq!(state.firing, state.firing_time);
}

#[test]
fn a_painted_line_is_fired_down_whatever_turns_up_in_the_meantime() {
    let mut sim = Sim::sandbox(47);
    let hunter = sim.add_actor(Kind::Hunter, Coord::new(5, 5));
    sim.add_actor(Kind::Cytoplasm, Coord::new(7, 5));
    sim.add_actor(Kind::Nucleus, Coord::new(15, 15));
    sim.human_act(hunter);
    sim.human_act(hunter);
    let painted: Vec<Coord> = sim.reticles().iter().map(|r| r.pos).collect();
    sim.add_actor(Kind::Cytoplasm, Coord::new(5, 4));
    assert_eq!(intent(&sim, hunter).map(|i| i.kind), Some(IntentKind::Fire));
    sim.human_act(hunter);
    assert!(painted.iter().all(|c| !sim.reticle_at(*c)), "it fired down the line it had drawn");
}

#[test]
fn a_shot_unslimes_rather_than_destroys() {
    let mut sim = Sim::sandbox(7);
    let hunter = sim.add_actor(Kind::Hunter, Coord::new(5, 5));
    sim.add_actor(Kind::QuantumCore, Coord::new(7, 5));
    sim.add_actor(Kind::Nucleus, Coord::new(15, 15));
    for _ in 0..3 {
        sim.human_act(hunter);
    }
    let dropped = (0..20)
        .flat_map(|y| (0..20).map(move |x| Coord::new(x, y)))
        .filter_map(|c| sim.item_at(c))
        .count();
    assert_eq!(dropped, Kind::QuantumCore.components().len(), "a shot drops the whole organelle");
}

#[test]
fn a_shot_nucleus_retreats_and_the_sacrifice_takes_it() {
    let mut sim = Sim::sandbox(30);
    let hunter = sim.add_actor(Kind::Hunter, Coord::new(5, 5));
    let nucleus = sim.add_actor(Kind::Nucleus, Coord::new(7, 5));
    let shield = sim.add_actor(Kind::Cytoplasm, Coord::new(7, 6));
    sim.add_actor(Kind::Nucleus, Coord::new(15, 15));
    for _ in 0..3 {
        sim.human_act(hunter);
    }
    assert!(alive(&sim, nucleus), "the nucleus ducked");
    assert_eq!(pos(&sim, nucleus), Coord::new(7, 6));
    assert!(!alive(&sim, shield), "the cytoplasm did not");
    assert_eq!(sim.phase(), Phase::Playing);
}

#[test]
fn a_shot_stops_at_rock_but_not_at_bodies() {
    let mut sim = Sim::sandbox(8);
    let hunter = sim.add_actor(Kind::Hunter, Coord::new(5, 5));
    sim.add_actor(Kind::Cytoplasm, Coord::new(7, 5));
    sim.add_actor(Kind::Nucleus, Coord::new(15, 15));
    sim.set_props(Coord::new(10, 5), false, false, true);
    sim.human_act(hunter);
    sim.human_act(hunter);
    let painted: Vec<i32> = sim.reticles().iter().map(|r| r.pos.x).collect();
    assert!(painted.contains(&7), "the beam passes through a body");
    assert!(painted.contains(&9));
    assert!(!painted.contains(&10), "and stops at rock");
}

#[test]
fn a_scout_out_of_line_closes_in_instead() {
    let mut sim = Sim::sandbox(9);
    let scout = sim.add_actor(Kind::Scout, Coord::new(5, 5));
    sim.add_actor(Kind::Cytoplasm, Coord::new(7, 7));
    sim.add_actor(Kind::Nucleus, Coord::new(15, 15));
    sim.human_act(scout);
    sim.human_act(scout);
    assert!(sim.reticles().is_empty(), "nothing to line up on");
    assert_ne!(pos(&sim, scout), Coord::new(5, 5), "so it walks");
}

#[test]
fn the_spawn_table_only_offers_what_the_budget_allows() {
    let mut sim = Sim::sandbox(12);
    let mut seen = [false; 6];
    for _ in 0..200 {
        let mut queued = Vec::new();
        sim.add_new_militia(2, &mut queued);
        for kind in queued {
            match kind {
                Kind::Militia => seen[0] = true,
                Kind::Tank => seen[1] = true,
                Kind::Scout => seen[2] = true,
                Kind::Mech => seen[3] = true,
                Kind::Hunter => seen[4] = true,
                _ => seen[5] = true,
            }
        }
    }
    assert!(seen[0] && seen[1] && seen[2], "budget two buys these three");
    assert!(!seen[3] && !seen[4], "and never a mech or a hunter");
    let mut budgets = Vec::new();
    for _ in 0..200 {
        let mut queued = Vec::new();
        let left = sim.add_new_militia(5, &mut queued);
        budgets.push((queued, left));
    }
    for (queued, left) in budgets {
        match queued.first() {
            Some(Kind::Militia) => assert_eq!((queued.len(), left), (3, 2)),
            Some(Kind::Mech | Kind::Hunter) => assert_eq!((queued.len(), left), (1, 2)),
            other => panic!("budget five bought a {other:?}"),
        }
    }
}

#[test]
fn a_tentacle_backs_away_from_an_adjacent_tank() {
    let mut gave_ground = 0;
    for seed in 0..24 {
        let mut sim = Sim::sandbox(seed);
        let tentacle = sim.add_actor(Kind::Tentacle, Coord::new(5, 5));
        let tank = sim.add_actor(Kind::Tank, Coord::new(6, 5));
        sim.add_actor(Kind::Nucleus, Coord::new(15, 15));
        sim.tentacle_act(tentacle);
        let now = pos(&sim, tentacle);
        assert!(alive(&sim, tank), "seed {seed}: it did not attack");
        if now == Coord::new(5, 5) {
            continue;
        }
        gave_ground += 1;
        assert_eq!(now.taxi(Coord::new(6, 5)), 2, "seed {seed}: it stepped away");
    }
    assert!(gave_ground > 8, "it usually backs off: {gave_ground}/24");
}

#[test]
fn a_gate_queues_its_first_wave_when_its_timer_runs_out() {
    let mut sim = Sim::sandbox(10);
    sim.set_props(Coord::new(6, 5), false, false, true);
    let city = sim.add_actor(Kind::City, Coord::new(6, 5));
    let wave = |sim: &Sim| match &sim.actors().get(city).unwrap().extra {
        Extra::City(state) => (state.wave_number, state.turns_to_next_wave),
        _ => panic!("a gate"),
    };
    for turn in 1..50 {
        sim.city_act(city);
        assert_eq!(wave(&sim).0, 0, "turn {turn}");
    }
    sim.city_act(city);
    assert_eq!(wave(&sim), (1, 50), "the first wave, and the timer wound on");
}

#[test]
fn a_gate_lets_its_first_wave_out_one_human_a_turn() {
    let mut sim = Sim::sandbox(13);
    sim.set_props(Coord::new(6, 5), false, false, true);
    let city = sim.add_actor(Kind::City, Coord::new(6, 5));
    for _ in 0..50 {
        sim.city_act(city);
    }
    let queued = |sim: &Sim| match &sim.actors().get(city).unwrap().extra {
        Extra::City(state) => state.queue.len(),
        _ => panic!("a gate"),
    };
    let before = sim.actors().len();
    let waiting = queued(&sim);
    assert!(before >= 2 || waiting >= 1, "a wave was drawn");
    for _ in 0..4 {
        let out = sim.actors().len();
        let left = queued(&sim);
        sim.city_act(city);
        assert!(sim.actors().len() <= out + 1, "at most one human a turn");
        assert!(queued(&sim) + 1 >= left);
    }
}
