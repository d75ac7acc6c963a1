use amoeba_rl::sim::actors::{ActorId, ItemKind, Kind};
use amoeba_rl::sim::grid::Coord;
use amoeba_rl::sim::{Cue, Sim};

/// How far a force field reaches when the attacker is not armoured.
const LONG_RANGE_FF_DIST: i32 = 3;

/// A monster of `attacker` beside a victim of `victim`, three cells clear of
/// the arena wall, and a nucleus elsewhere so the run goes on.
fn duel(seed: u64, attacker: Kind, victim: Kind) -> (Sim, ActorId, ActorId) {
    let mut sim = Sim::sandbox(seed);
    let monster = sim.add_actor(attacker, Coord::new(9, 9));
    let target = sim.add_actor(victim, Coord::new(10, 9));
    sim.add_actor(Kind::Nucleus, Coord::new(3, 3));
    (sim, monster, target)
}

fn alive(sim: &Sim, id: ActorId) -> bool {
    sim.actors().contains(id)
}

fn pos(sim: &Sim, id: ActorId) -> Coord {
    sim.actors().get(id).expect("alive").pos
}

#[test]
fn a_membrane_kills_an_unarmoured_attacker() {
    for membrane in [
        Kind::Membrane,
        Kind::Maw,
        Kind::Tentacle,
        Kind::ReinforcedMembrane,
        Kind::ForceField,
        Kind::PhaseMembrane,
        Kind::ReinforcedMaw,
    ] {
        let (mut sim, monster, target) = duel(1, Kind::Militia, membrane);
        sim.attack(monster, target);
        assert!(!alive(&sim, monster), "{membrane:?} let a militia live");
        assert!(alive(&sim, target), "{membrane:?} did not survive");
    }
}

#[test]
fn armour_splits_only_on_reinforced_proteins() {
    for membrane in [
        Kind::ReinforcedMembrane,
        Kind::ForceField,
        Kind::PhaseMembrane,
        Kind::ReinforcedMaw,
    ] {
        let (mut sim, monster, target) = duel(2, Kind::Tank, membrane);
        sim.attack(monster, target);
        assert!(!alive(&sim, monster), "{membrane:?} let a tank live");
        assert!(alive(&sim, target));
    }
    for membrane in [Kind::Membrane, Kind::Maw, Kind::Tentacle] {
        let (mut sim, monster, target) = duel(3, Kind::Tank, membrane);
        sim.attack(monster, target);
        assert!(alive(&sim, monster), "{membrane:?} killed a tank");
        assert!(!alive(&sim, target), "{membrane:?} survived a tank");
    }
}

#[test]
fn a_dead_human_leaves_its_loot_behind() {
    let (mut sim, monster, target) = duel(4, Kind::Tank, Kind::ReinforcedMembrane);
    sim.attack(monster, target);
    let dropped: Vec<ItemKind> = (0..20)
        .flat_map(|y| (0..20).map(move |x| Coord::new(x, y)))
        .filter_map(|c| sim.item_at(c))
        .map(|i| sim.items().get(i).expect("on the floor").kind)
        .collect();
    assert_eq!(dropped, vec![ItemKind::CalciumDust]);
}

#[test]
fn a_force_field_reaches_three_cells_for_an_unarmoured_attacker() {
    for distance in 1..=4 {
        let mut sim = Sim::sandbox(5);
        let monster = sim.add_actor(Kind::Militia, Coord::new(4, 9));
        let victim = sim.add_actor(Kind::Cytoplasm, Coord::new(5, 9));
        sim.add_actor(Kind::ForceField, Coord::new(5 + distance, 9));
        sim.add_actor(Kind::Nucleus, Coord::new(3, 3));
        sim.attack(monster, victim);
        assert_eq!(alive(&sim, victim), distance <= LONG_RANGE_FF_DIST, "at distance {distance}");
    }
}

#[test]
fn a_force_field_only_reaches_one_cell_for_a_tank() {
    for distance in 1..=3 {
        let mut sim = Sim::sandbox(6);
        let monster = sim.add_actor(Kind::Tank, Coord::new(4, 9));
        let victim = sim.add_actor(Kind::Cytoplasm, Coord::new(5, 9));
        sim.add_actor(Kind::ForceField, Coord::new(5 + distance, 9));
        sim.add_actor(Kind::Nucleus, Coord::new(3, 3));
        sim.attack(monster, victim);
        assert_eq!(alive(&sim, victim), distance == 1, "a tank at distance {distance}");
    }
}

#[test]
fn a_phase_membrane_swaps_in_and_kills_the_attacker() {
    let mut sim = Sim::sandbox(7);
    let monster = sim.add_actor(Kind::Mech, Coord::new(4, 9));
    let victim = sim.add_actor(Kind::Cytoplasm, Coord::new(5, 9));
    let savior = sim.add_actor(Kind::PhaseMembrane, Coord::new(5, 10));
    sim.add_actor(Kind::Nucleus, Coord::new(3, 3));
    sim.attack(monster, victim);
    assert!(!alive(&sim, monster), "the mech is gone");
    assert!(alive(&sim, victim), "the cytoplasm lived");
    assert_eq!(pos(&sim, savior), Coord::new(5, 9), "they traded places");
    assert_eq!(pos(&sim, victim), Coord::new(5, 10));
}

#[test]
fn a_membrane_beside_a_phase_membrane_is_still_on_its_own() {
    let mut sim = Sim::sandbox(8);
    let monster = sim.add_actor(Kind::Tank, Coord::new(4, 9));
    let victim = sim.add_actor(Kind::Membrane, Coord::new(5, 9));
    sim.add_actor(Kind::PhaseMembrane, Coord::new(5, 10));
    sim.add_actor(Kind::Nucleus, Coord::new(3, 3));
    sim.attack(monster, victim);
    assert!(alive(&sim, monster));
    assert!(!alive(&sim, victim));
}

#[test]
fn a_saved_organelle_is_not_destroyed() {
    let (mut sim, monster, victim) = duel(9, Kind::Militia, Kind::Cytoplasm);
    sim.attack(monster, victim);
    assert!(!alive(&sim, victim), "with no saviour it dies");
    let (mut sim, monster, victim) = duel(10, Kind::Militia, Kind::Cytoplasm);
    sim.add_actor(Kind::ForceField, Coord::new(10, 10));
    sim.attack(monster, victim);
    assert!(alive(&sim, victim), "with one, it does not");
}

#[test]
fn a_struck_nucleus_retreats_into_a_neighbour() {
    let mut sim = Sim::sandbox(11);
    let monster = sim.add_actor(Kind::Militia, Coord::new(4, 9));
    let nucleus = sim.add_actor(Kind::Nucleus, Coord::new(5, 9));
    let shield = sim.add_actor(Kind::Cytoplasm, Coord::new(5, 10));
    sim.add_actor(Kind::Nucleus, Coord::new(3, 3));
    sim.attack(monster, nucleus);
    assert!(alive(&sim, nucleus), "the nucleus lived");
    assert_eq!(pos(&sim, nucleus), Coord::new(5, 10));
    assert!(!alive(&sim, shield), "the cytoplasm did not");
}

#[test]
fn a_cornered_nucleus_dies() {
    let mut sim = Sim::sandbox(12);
    let monster = sim.add_actor(Kind::Militia, Coord::new(4, 9));
    let nucleus = sim.add_actor(Kind::Nucleus, Coord::new(5, 9));
    sim.add_actor(Kind::Nucleus, Coord::new(3, 3));
    sim.attack(monster, nucleus);
    assert!(!alive(&sim, nucleus));
    assert!(sim.cues().contains(&Cue::NucleusLost));
}

#[test]
fn a_retreat_prefers_somewhere_nothing_is_aiming() {
    for seed in 0..12 {
        let mut sim = Sim::sandbox(seed);
        let nucleus = sim.add_actor(Kind::Nucleus, Coord::new(9, 9));
        let hunter = sim.add_actor(Kind::Hunter, Coord::new(2, 2));
        let painted = sim.add_actor(Kind::Cytoplasm, Coord::new(8, 9));
        let clear = sim.add_actor(Kind::Cytoplasm, Coord::new(10, 9));
        sim.paint(Coord::new(8, 9), hunter);
        let chosen = sim.retreat(nucleus).expect("a sacrifice");
        assert_eq!(chosen, clear, "seed {seed}: it hid behind the clear cell");
        assert_ne!(chosen, painted);
    }
}

#[test]
fn a_retreat_will_take_a_painted_cell_if_it_is_the_only_one() {
    let mut sim = Sim::sandbox(14);
    let nucleus = sim.add_actor(Kind::Nucleus, Coord::new(9, 9));
    let hunter = sim.add_actor(Kind::Hunter, Coord::new(2, 2));
    let painted = sim.add_actor(Kind::Cytoplasm, Coord::new(8, 9));
    sim.paint(Coord::new(8, 9), hunter);
    assert_eq!(sim.retreat(nucleus), Some(painted));
}
