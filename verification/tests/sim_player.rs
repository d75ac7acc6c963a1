use amoeba_rl::sim::actors::{ActorId, ItemKind, Kind};
use amoeba_rl::sim::grid::Coord;
use amoeba_rl::sim::{Cue, Phase, Sim};

/// A row of actors starting at `start` and stepping by `step`.
fn line(sim: &mut Sim, kinds: &[Kind], start: Coord, step: Coord) -> Vec<ActorId> {
    let mut at = start;
    let mut ids = Vec::new();
    for kind in kinds {
        ids.push(sim.add_actor(*kind, at));
        at = Coord::new(at.x + step.x, at.y + step.y);
    }
    ids
}

fn pos(sim: &Sim, id: ActorId) -> Coord {
    sim.actors().get(id).expect("alive").pos
}

fn kind(sim: &Sim, id: ActorId) -> Kind {
    sim.actors().get(id).expect("alive").kind
}

fn alive(sim: &Sim, id: ActorId) -> bool {
    sim.actors().contains(id)
}

fn items_on_map(sim: &Sim) -> Vec<ItemKind> {
    (0..20)
        .flat_map(|y| (0..20).map(move |x| Coord::new(x, y)))
        .filter_map(|c| sim.item_at(c))
        .map(|id| sim.items().get(id).expect("on the floor").kind)
        .collect()
}

fn count_in_mass(sim: &Sim, k: Kind) -> usize {
    sim.player_mass().iter().filter(|id| kind(sim, **id) == k).count()
}

#[test]
fn a_straight_chain_shuffles_forward() {
    let mut sim = Sim::sandbox(1);
    let ids = line(
        &mut sim,
        &[Kind::Nucleus, Kind::Cytoplasm, Kind::Cytoplasm],
        Coord::new(5, 5),
        Coord::new(1, 0),
    );
    assert!(sim.attack_move(ids[0], Coord::new(4, 5)));
    assert_eq!(pos(&sim, ids[0]), Coord::new(4, 5));
    assert_eq!(pos(&sim, ids[1]), Coord::new(5, 5));
    assert_eq!(pos(&sim, ids[2]), Coord::new(6, 5));
    assert!(sim.grid().walkable(Coord::new(7, 5)));
}

#[test]
fn only_the_deepest_tail_is_dragged() {
    let mut sim = Sim::sandbox(2);
    let root = sim.add_actor(Kind::Nucleus, Coord::new(10, 10));
    let long = line(
        &mut sim,
        &[Kind::Cytoplasm, Kind::Cytoplasm, Kind::Cytoplasm],
        Coord::new(11, 10),
        Coord::new(1, 0),
    );
    let short = sim.add_actor(Kind::Cytoplasm, Coord::new(10, 11));
    assert!(sim.attack_move(root, Coord::new(9, 10)));
    assert_eq!(pos(&sim, short), Coord::new(10, 11));
    assert_eq!(pos(&sim, long[0]), Coord::new(10, 10));
    assert_eq!(pos(&sim, long[2]), Coord::new(12, 10));
}

#[test]
fn tied_tails_are_chosen_by_the_seeded_rng() {
    let mut moved_left = 0;
    let mut moved_right = 0;
    for seed in 0..24 {
        let mut sim = Sim::sandbox(seed);
        let root = sim.add_actor(Kind::Nucleus, Coord::new(10, 5));
        let west = sim.add_actor(Kind::Cytoplasm, Coord::new(9, 5));
        let east = sim.add_actor(Kind::Cytoplasm, Coord::new(11, 5));
        assert!(sim.attack_move(root, Coord::new(10, 4)));
        let west_moved = pos(&sim, west) == Coord::new(10, 5);
        let east_moved = pos(&sim, east) == Coord::new(10, 5);
        assert!(west_moved ^ east_moved, "exactly one tail follows");
        moved_left += i32::from(west_moved);
        moved_right += i32::from(east_moved);
    }
    assert!(moved_left > 0 && moved_right > 0, "both tails are reachable");
}

#[test]
fn the_highlight_covers_every_tied_tail() {
    let mut sim = Sim::sandbox(3);
    let root = sim.add_actor(Kind::Nucleus, Coord::new(10, 5));
    let west = sim.add_actor(Kind::Cytoplasm, Coord::new(9, 5));
    let east = sim.add_actor(Kind::Cytoplasm, Coord::new(11, 5));
    sim.set_active_nucleus(root);
    assert_eq!(sim.actors().get(root).unwrap().slime, 2);
    assert_eq!(sim.actors().get(west).unwrap().slime, 2);
    assert_eq!(sim.actors().get(east).unwrap().slime, 2);
    let mut sim = Sim::sandbox(3);
    let root = sim.add_actor(Kind::Nucleus, Coord::new(10, 5));
    let far = line(
        &mut sim,
        &[Kind::Cytoplasm, Kind::Cytoplasm],
        Coord::new(11, 5),
        Coord::new(1, 0),
    );
    let near = sim.add_actor(Kind::Cytoplasm, Coord::new(9, 5));
    sim.set_active_nucleus(root);
    assert_eq!(sim.actors().get(near).unwrap().slime, 1);
    assert_eq!(sim.actors().get(far[1]).unwrap().slime, 2);
}

#[test]
fn anchored_organelles_are_left_out_of_the_drag() {
    let mut sim = Sim::sandbox(4);
    let root = sim.add_actor(Kind::Nucleus, Coord::new(5, 5));
    let anchored = sim.add_actor(Kind::Cytoplasm, Coord::new(6, 5));
    let behind = sim.add_actor(Kind::Cytoplasm, Coord::new(7, 5));
    sim.set_anchor(anchored, true);
    assert!(sim.attack_move(root, Coord::new(4, 5)));
    assert_eq!(pos(&sim, anchored), Coord::new(6, 5));
    assert_eq!(pos(&sim, behind), Coord::new(7, 5));
}

#[test]
fn walking_into_your_own_body_swaps_without_dragging() {
    let mut sim = Sim::sandbox(5);
    let root = sim.add_actor(Kind::Nucleus, Coord::new(5, 5));
    let neighbour = sim.add_actor(Kind::Cytoplasm, Coord::new(6, 5));
    let tail = sim.add_actor(Kind::Cytoplasm, Coord::new(7, 5));
    assert!(sim.attack_move(root, Coord::new(6, 5)));
    assert_eq!(pos(&sim, root), Coord::new(6, 5));
    assert_eq!(pos(&sim, neighbour), Coord::new(5, 5));
    assert_eq!(pos(&sim, tail), Coord::new(7, 5), "the tail stays put");
}

#[test]
fn walking_into_rock_costs_nothing() {
    let mut sim = Sim::sandbox(6);
    let root = sim.add_actor(Kind::Nucleus, Coord::new(1, 1));
    assert!(!sim.attack_move(root, Coord::new(0, 1)));
    assert_eq!(pos(&sim, root), Coord::new(1, 1));
}

#[test]
fn eating_a_human_leaves_the_corpse_behind_you() {
    let mut sim = Sim::sandbox(7);
    let root = sim.add_actor(Kind::Nucleus, Coord::new(5, 5));
    let militia = sim.add_actor(Kind::Militia, Coord::new(6, 5));
    assert!(sim.attack_move(root, Coord::new(6, 5)));
    assert!(!alive(&sim, militia));
    assert_eq!(pos(&sim, root), Coord::new(6, 5));
    let corpse = sim.actor_at(Coord::new(5, 5)).expect("a corpse behind us");
    assert_eq!(kind(&sim, corpse), Kind::DissolvingMilitia);
    assert_eq!(sim.actors().get(corpse).unwrap().hp, 8);
    assert!(sim.player_mass().contains(&corpse));
}

#[test]
fn armour_turns_away_anything_but_a_laser_or_a_reinforced_maw() {
    let mut sim = Sim::sandbox(8);
    let root = sim.add_actor(Kind::Nucleus, Coord::new(5, 5));
    let tank = sim.add_actor(Kind::Tank, Coord::new(6, 5));
    assert!(!sim.attack_move(root, Coord::new(6, 5)));
    assert!(alive(&sim, tank));
    sim.set_kind(root, Kind::LaserCore);
    assert!(sim.attack_move(root, Coord::new(6, 5)));
    assert!(!alive(&sim, tank));
}

#[test]
fn a_nutrient_grows_the_mass_by_one() {
    let mut sim = Sim::sandbox(9);
    let root = sim.add_actor(Kind::Nucleus, Coord::new(5, 5));
    sim.add_item(ItemKind::Nutrient, Coord::new(6, 5));
    let before = sim.mass();
    assert!(sim.attack_move(root, Coord::new(6, 5)));
    assert_eq!(sim.mass(), before + 1);
    assert_eq!(pos(&sim, root), Coord::new(6, 5));
    assert!(sim.item_at(Coord::new(6, 5)).is_none());
}

#[test]
fn a_catalyst_spends_the_nearest_cytoplasm() {
    let mut sim = Sim::sandbox(10);
    let root = sim.add_actor(Kind::Nucleus, Coord::new(5, 5));
    let near = sim.add_actor(Kind::Cytoplasm, Coord::new(5, 6));
    let far = sim.add_actor(Kind::Cytoplasm, Coord::new(5, 7));
    sim.add_item(ItemKind::BarbedWire, Coord::new(6, 5));
    let before = sim.mass();
    assert!(sim.attack_move(root, Coord::new(6, 5)));
    assert_eq!(sim.mass(), before, "a cytoplasm was spent, not gained");
    assert!(!alive(&sim, near), "the nearest ring is used first");
    assert!(alive(&sim, far));
    assert_eq!(count_in_mass(&sim, Kind::Membrane), 1);
    assert_eq!(pos(&sim, root), Coord::new(6, 5));
}

#[test]
fn every_catalyst_grows_what_the_table_says() {
    for (item, grown) in [
        (ItemKind::Nutrient, Kind::Cytoplasm),
        (ItemKind::CalciumDust, Kind::Calcium),
        (ItemKind::SiliconDust, Kind::Electronics),
        (ItemKind::BarbedWire, Kind::Membrane),
        (ItemKind::Plant, Kind::Chloroplast),
        (ItemKind::Dna, Kind::Nucleus),
    ] {
        let mut sim = Sim::sandbox(40);
        let root = sim.add_actor(Kind::Nucleus, Coord::new(5, 5));
        sim.add_actor(Kind::Cytoplasm, Coord::new(5, 6));
        sim.add_item(item, Coord::new(6, 5));
        let before = sim.mass();
        assert!(sim.attack_move(root, Coord::new(6, 5)), "{item:?}");
        let made = count_in_mass(&sim, grown);
        assert!(made >= 1, "{item:?} did not grow a {grown:?}");
        let expected = if item == ItemKind::Nutrient { before + 1 } else { before };
        assert_eq!(sim.mass(), expected, "{item:?} changed the mass wrongly");
        assert!(sim.item_at(Coord::new(6, 5)).is_none(), "{item:?} lingered");
        assert_eq!(pos(&sim, root), Coord::new(6, 5), "{item:?}");
    }
}

#[test]
fn a_cytoplasm_eating_a_catalyst_transforms_where_it_stands() {
    let mut sim = Sim::sandbox(41);
    sim.add_actor(Kind::Nucleus, Coord::new(9, 9));
    let cell = sim.add_actor(Kind::Cytoplasm, Coord::new(5, 5));
    sim.add_item(ItemKind::Plant, Coord::new(6, 5));
    let before = sim.mass();
    assert!(sim.attack_move(cell, Coord::new(6, 5)));
    assert!(!alive(&sim, cell), "it spent itself");
    let grown = sim.actor_at(Coord::new(6, 5)).expect("a chloroplast");
    assert_eq!(kind(&sim, grown), Kind::Chloroplast);
    assert_eq!(sim.mass(), before);
}

#[test]
fn a_catalyst_with_no_cytoplasm_is_just_walked_over() {
    let mut sim = Sim::sandbox(11);
    let root = sim.add_actor(Kind::Nucleus, Coord::new(5, 5));
    sim.add_item(ItemKind::Dna, Coord::new(6, 5));
    assert!(sim.attack_move(root, Coord::new(6, 5)));
    assert_eq!(pos(&sim, root), Coord::new(6, 5));
    assert!(sim.item_at(Coord::new(6, 5)).is_some(), "the DNA is still there");
}

#[test]
fn a_sealed_human_is_engulfed() {
    let mut sim = Sim::sandbox(12);
    let militia = sim.add_actor(Kind::Militia, Coord::new(1, 1));
    sim.add_actor(Kind::Cytoplasm, Coord::new(2, 1));
    let root = sim.add_actor(Kind::Nucleus, Coord::new(1, 3));
    assert!(sim.attack_move(root, Coord::new(1, 2)));
    assert!(!alive(&sim, militia));
    let corpse = sim.actor_at(Coord::new(1, 1)).expect("a corpse in the corner");
    assert_eq!(kind(&sim, corpse), Kind::DissolvingMilitia);
}

#[test]
fn an_escape_route_prevents_engulfing() {
    let mut sim = Sim::sandbox(13);
    let militia = sim.add_actor(Kind::Militia, Coord::new(2, 1));
    let root = sim.add_actor(Kind::Nucleus, Coord::new(2, 3));
    assert!(sim.attack_move(root, Coord::new(2, 2)));
    assert!(alive(&sim, militia));
    assert_eq!(kind(&sim, militia), Kind::Militia);
}

#[test]
fn a_gate_next_to_the_group_breaks_the_seal() {
    let mut sim = Sim::sandbox(14);
    sim.set_props(Coord::new(1, 0), false, false, true);
    let city = sim.add_actor(Kind::City, Coord::new(1, 0));
    let militia = sim.add_actor(Kind::Militia, Coord::new(1, 1));
    sim.add_actor(Kind::Cytoplasm, Coord::new(2, 1));
    let root = sim.add_actor(Kind::Nucleus, Coord::new(1, 3));
    assert!(sim.attack_move(root, Coord::new(1, 2)));
    assert!(alive(&sim, militia), "a city protects its own");
    assert!(alive(&sim, city));
}

#[test]
fn a_whole_clump_is_engulfed_at_once() {
    let mut sim = Sim::sandbox(15);
    let a = sim.add_actor(Kind::Militia, Coord::new(1, 1));
    let b = sim.add_actor(Kind::Militia, Coord::new(1, 2));
    sim.add_actor(Kind::Cytoplasm, Coord::new(2, 1));
    sim.add_actor(Kind::Cytoplasm, Coord::new(2, 2));
    let root = sim.add_actor(Kind::Nucleus, Coord::new(1, 4));
    assert!(sim.attack_move(root, Coord::new(1, 3)));
    assert!(!alive(&sim, a));
    assert!(!alive(&sim, b));
}

#[test]
fn digestion_ticks_down_and_yields_a_product() {
    let mut sim = Sim::sandbox(16);
    let corpse = sim.add_actor(Kind::DissolvingMilitia, Coord::new(5, 5));
    for _ in 0..7 {
        sim.digest(corpse);
        assert!(alive(&sim, corpse));
    }
    sim.digest(corpse);
    assert!(!alive(&sim, corpse));
    let product = sim.actor_at(Coord::new(5, 5)).expect("a product");
    assert_eq!(kind(&sim, product), Kind::Cytoplasm);
}

#[test]
fn attacking_a_corpse_rescues_the_human() {
    let mut sim = Sim::sandbox(17);
    let corpse = sim.add_actor(Kind::DissolvingTank, Coord::new(5, 5));
    sim.destroy_organelle(corpse);
    let rescued = sim.actor_at(Coord::new(5, 5)).expect("a tank again");
    assert_eq!(kind(&sim, rescued), Kind::Tank);
}

#[test]
fn a_nucleus_retreats_into_a_neighbour() {
    let mut sim = Sim::sandbox(18);
    let nucleus = sim.add_actor(Kind::Nucleus, Coord::new(5, 5));
    let shield = sim.add_actor(Kind::Cytoplasm, Coord::new(6, 5));
    let other_nucleus = sim.add_actor(Kind::Nucleus, Coord::new(5, 6));
    let sacrifice = sim.retreat(nucleus).expect("a neighbour to hide behind");
    assert_eq!(sacrifice, shield, "another nucleus cannot be a sacrifice");
    assert_eq!(pos(&sim, nucleus), Coord::new(6, 5));
    assert_eq!(pos(&sim, shield), Coord::new(5, 5));
    assert_eq!(pos(&sim, other_nucleus), Coord::new(5, 6));
}

#[test]
fn a_lone_nucleus_cannot_retreat() {
    let mut sim = Sim::sandbox(19);
    let nucleus = sim.add_actor(Kind::Nucleus, Coord::new(5, 5));
    assert!(sim.retreat(nucleus).is_none());
}

#[test]
fn losing_the_last_nucleus_ends_the_run() {
    let mut sim = Sim::sandbox(20);
    let first = sim.add_actor(Kind::Nucleus, Coord::new(5, 5));
    let second = sim.add_actor(Kind::Nucleus, Coord::new(6, 5));
    sim.destroy_organelle(first);
    assert_eq!(sim.phase(), Phase::Playing);
    sim.destroy_organelle(second);
    assert_eq!(sim.phase(), Phase::GameOver { won: false });
    assert!(sim.cues().contains(&Cue::Lose));
}

#[test]
fn a_destroyed_nucleus_drops_only_its_first_component() {
    let mut sim = Sim::sandbox(21);
    let nucleus = sim.add_actor(Kind::Nucleus, Coord::new(5, 5));
    sim.add_actor(Kind::Nucleus, Coord::new(8, 8));
    sim.destroy_organelle(nucleus);
    assert_eq!(items_on_map(&sim), vec![ItemKind::Dna]);
}

#[test]
fn an_unslimed_organelle_drops_everything() {
    let mut sim = Sim::sandbox(22);
    sim.add_actor(Kind::Nucleus, Coord::new(8, 8));
    let core = sim.add_actor(Kind::QuantumCore, Coord::new(5, 5));
    sim.unslime_organelle(core);
    assert_eq!(items_on_map(&sim).len(), Kind::QuantumCore.components().len());
}

#[test]
fn breaking_the_last_needed_gate_wins() {
    let mut sim = Sim::sandbox(23);
    let nucleus = sim.add_actor(Kind::Nucleus, Coord::new(5, 5));
    for i in 0..8 {
        sim.add_actor(Kind::Cytoplasm, Coord::new(5 + i % 4, 8 + i / 4));
    }
    sim.set_props(Coord::new(6, 5), false, false, true);
    let city = sim.add_actor(Kind::City, Coord::new(6, 5));
    sim.set_armor(city, 4);
    assert!(sim.attack_move(nucleus, Coord::new(6, 5)));
    assert_eq!(sim.phase(), Phase::GameOver { won: true });
    assert!(sim.cues().contains(&Cue::Win));
    assert!(sim.grid().walkable(Coord::new(6, 5)));
}

#[test]
fn too_little_mass_leaves_the_gate_standing() {
    let mut sim = Sim::sandbox(24);
    let nucleus = sim.add_actor(Kind::Nucleus, Coord::new(5, 5));
    sim.set_props(Coord::new(6, 5), false, false, true);
    let city = sim.add_actor(Kind::City, Coord::new(6, 5));
    sim.set_armor(city, 100);
    assert!(!sim.attack_move(nucleus, Coord::new(6, 5)));
    assert!(alive(&sim, city));
    assert_eq!(sim.phase(), Phase::Playing);
}

#[test]
fn cycling_nuclei_wraps_in_acquisition_order() {
    let mut sim = Sim::sandbox(25);
    let first = sim.add_actor(Kind::Nucleus, Coord::new(5, 5));
    let second = sim.add_actor(Kind::Nucleus, Coord::new(6, 5));
    sim.set_active_nucleus(first);
    sim.next_nucleus(1);
    assert_eq!(sim.active_nucleus(), Some(second));
    sim.next_nucleus(1);
    assert_eq!(sim.active_nucleus(), Some(first));
    sim.next_nucleus(-1);
    assert_eq!(sim.active_nucleus(), Some(second));
}

#[test]
fn every_nucleus_is_rescheduled_together() {
    let mut sim = Sim::sandbox(26);
    let slow = sim.add_actor(Kind::Nucleus, Coord::new(5, 5));
    let fast = sim.add_actor(Kind::SmartCore, Coord::new(6, 5));
    sim.set_active_nucleus(fast);
    assert_eq!(sim.schedule().scheduled_for(fast), Some(8));
    assert_eq!(
        sim.schedule().scheduled_for(slow),
        Some(8),
        "the slow nucleus adopts the active one's speed"
    );
}
