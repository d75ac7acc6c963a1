use amoeba_rl::sim::actors::{ItemKind, Kind};
use amoeba_rl::sim::grid::Coord;
use amoeba_rl::sim::Sim;

fn pos(sim: &Sim, id: amoeba_rl::sim::actors::ActorId) -> Coord {
    sim.actors().get(id).expect("alive").pos
}

#[test]
fn a_report_beside_an_old_one_moves_it_rather_than_adding_another() {
    let mut sim = Sim::sandbox(43);
    sim.raise_rumor(Coord::new(5, 5));
    sim.raise_rumor(Coord::new(6, 5));
    assert_eq!(sim.rumors().len(), 1, "one fight is one rumor");
    assert_eq!(sim.rumors()[0].pos, Coord::new(6, 5), "and it followed");
    sim.raise_rumor(Coord::new(18, 18));
    assert_eq!(sim.rumors().len(), 2);
}

#[test]
fn only_the_newest_eight_rumors_are_kept() {
    let mut sim = Sim::sandbox(1);
    for k in 0..9 {
        sim.raise_rumor(Coord::new(k * 10, 0));
    }
    assert_eq!(sim.rumors().len(), 8);
    assert_eq!(sim.rumors()[0].pos, Coord::new(10, 0), "the oldest went first");
    assert_eq!(sim.rumors()[7].pos, Coord::new(80, 0));
    assert_eq!(sim.rumors()[7].until, 40 * 16);
}

#[test]
fn fresh_rumors_survive_a_clean_out() {
    let mut sim = Sim::sandbox(2);
    sim.raise_rumor(Coord::new(3, 3));
    sim.forget_stale_rumors();
    assert_eq!(sim.rumors().len(), 1, "a report is news until its time runs out");
}

#[test]
fn a_maw_crawls_through_your_body_toward_food() {
    let mut sim = Sim::sandbox(15);
    let maw = sim.add_actor(Kind::Maw, Coord::new(5, 5));
    sim.add_actor(Kind::Cytoplasm, Coord::new(6, 5));
    let militia = sim.add_actor(Kind::Militia, Coord::new(7, 5));
    sim.add_actor(Kind::Nucleus, Coord::new(15, 15));
    sim.maw_act(maw);
    assert_eq!(pos(&sim, maw), Coord::new(6, 5), "it swaps forward");
    sim.maw_act(maw);
    assert!(!sim.actors().contains(militia), "and then eats");
}

#[test]
fn a_plain_maw_leaves_armour_alone() {
    let mut sim = Sim::sandbox(16);
    let maw = sim.add_actor(Kind::Maw, Coord::new(5, 5));
    let tank = sim.add_actor(Kind::Tank, Coord::new(6, 5));
    sim.add_actor(Kind::Nucleus, Coord::new(15, 15));
    sim.maw_act(maw);
    assert!(sim.actors().contains(tank));
    assert_eq!(pos(&sim, maw), Coord::new(5, 5));
    sim.set_kind(maw, Kind::ReinforcedMaw);
    sim.maw_act(maw);
    assert!(!sim.actors().contains(tank));
}

#[test]
fn a_maw_wants_food_on_the_floor_and_soldiers_but_not_tanks() {
    let mut sim = Sim::sandbox(17);
    sim.add_actor(Kind::Militia, Coord::new(3, 3));
    sim.add_actor(Kind::Tank, Coord::new(4, 3));
    sim.add_item(ItemKind::Nutrient, Coord::new(5, 3));
    assert!(sim.hungry_for(Kind::Maw, Coord::new(3, 3)));
    assert!(!sim.hungry_for(Kind::Maw, Coord::new(4, 3)));
    assert!(sim.hungry_for(Kind::ReinforcedMaw, Coord::new(4, 3)));
    assert!(sim.hungry_for(Kind::Maw, Coord::new(5, 3)));
    assert!(!sim.hungry_for(Kind::Maw, Coord::new(6, 3)));
}

#[test]
fn a_gate_opens_onto_its_one_open_side() {
    let mut sim = Sim::sandbox(18);
    let gate = sim.add_actor(Kind::City, Coord::new(0, 5));
    assert_eq!(sim.gate_door(gate), Some(Coord::new(1, 5)));
    assert!(sim.body_at(Coord::new(1, 5)) == false);
    sim.add_actor(Kind::Membrane, Coord::new(1, 5));
    assert!(sim.body_at(Coord::new(1, 5)));
    assert_eq!(sim.gate_door(gate), Some(Coord::new(1, 5)), "somebody in a doorway does not close it");
}

#[test]
fn the_freshest_far_rumor_is_the_goal() {
    let mut sim = Sim::sandbox(19);
    let scout = sim.add_actor(Kind::Scout, Coord::new(5, 5));
    assert_eq!(sim.rumor_goal(scout), None);
    sim.raise_rumor(Coord::new(15, 5));
    sim.raise_rumor(Coord::new(6, 5));
    assert_eq!(sim.rumor_goal(scout), Some(Coord::new(15, 5)), "the newest is already here");
    sim.raise_rumor(Coord::new(5, 15));
    assert_eq!(sim.rumor_goal(scout), Some(Coord::new(5, 15)));
}

#[test]
fn the_nearest_chamber_further_than_arrival_is_chosen() {
    let mut sim = Sim::new(5, amoeba_rl::sim::Difficulty::Normal);
    sim.start(amoeba_rl::sim::Difficulty::Normal);
    let hubs: Vec<Coord> = sim.junctions().to_vec();
    let from = hubs[0];
    let got = sim.nearest_junction(from).expect("more than one chamber");
    assert!(got.taxi(from) > 2);
    for h in &hubs {
        if h.taxi(from) > 2 {
            assert!(h.taxi(from) >= got.taxi(from));
        }
    }
}

#[test]
fn a_wave_draw_spends_what_it_buys() {
    let mut sim = Sim::sandbox(20);
    for budget in 1..=6 {
        for _ in 0..20 {
            let mut queued = vec![Kind::Caravan];
            let left = sim.add_new_militia(budget, &mut queued);
            assert_eq!(queued[0], Kind::Caravan, "what was queued stays");
            let added = &queued[1..];
            assert!(left >= 0 && left < budget);
            match added {
                [Kind::Mech] | [Kind::Hunter] => assert!(budget >= 3 && left == budget - 3),
                [Kind::Tank] | [Kind::Scout] => assert!(budget == 2 && left == 0),
                soldiers => {
                    assert_eq!(soldiers.len() as i32, budget.min(3));
                    assert!(soldiers.iter().all(|k| *k == Kind::Militia));
                    assert_eq!(left, budget - budget.min(3));
                }
            }
        }
    }
}

#[test]
fn a_budget_of_one_buys_one_soldier() {
    let mut sim = Sim::sandbox(21);
    let mut queued = Vec::new();
    assert_eq!(sim.add_new_militia(1, &mut queued), 0);
    assert_eq!(queued, vec![Kind::Militia]);
}

#[test]
fn a_caravan_with_no_far_gate_has_nowhere_to_go() {
    let mut sim = Sim::sandbox(22);
    let caravan = sim.add_actor(Kind::Caravan, Coord::new(5, 5));
    sim.add_actor(Kind::City, Coord::new(0, 5));
    assert_eq!(sim.assign_convoy_goal(caravan), None, "the only gate is too close");
}

#[test]
fn a_caravan_heads_for_a_far_doorway() {
    let mut sim = Sim::sandbox(23);
    let caravan = sim.add_actor(Kind::Caravan, Coord::new(2, 2));
    sim.add_actor(Kind::City, Coord::new(19, 17));
    let goal = sim.assign_convoy_goal(caravan).expect("a far gate");
    assert_eq!(goal, Coord::new(18, 17));
    assert_eq!(sim.actors().get(caravan).unwrap().orders.goal, Some(goal));
}

#[test]
fn the_gate_beside_a_doorway_is_found() {
    let mut sim = Sim::sandbox(24);
    sim.add_actor(Kind::City, Coord::new(0, 5));
    assert_eq!(sim.gate_beside(Coord::new(1, 5)), Some(Coord::new(0, 5)));
    assert_eq!(sim.gate_beside(Coord::new(2, 5)), None);
}
