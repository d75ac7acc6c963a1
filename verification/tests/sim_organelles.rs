use amoeba_rl::sim::actors::{is_unupgraded_nucleus, ActorId, Extra, ItemKind, Kind, Resource};
use amoeba_rl::sim::grid::Coord;
use amoeba_rl::sim::{Sim, SOUP_NUCLEUS_CAP};

fn alive(sim: &Sim, id: ActorId) -> bool {
    sim.actors().contains(id)
}

fn pos(sim: &Sim, id: ActorId) -> Coord {
    sim.actors().get(id).expect("alive").pos
}

fn kind(sim: &Sim, id: ActorId) -> Kind {
    sim.actors().get(id).expect("alive").kind
}

fn count_in_mass(sim: &Sim, k: Kind) -> usize {
    sim.player_mass().iter().filter(|id| kind(sim, **id) == k).count()
}

#[test]
fn a_chloroplast_produces_every_sixteen_turns_after_twenty() {
    let mut sim = Sim::sandbox(1);
    let plant = sim.add_actor(Kind::Chloroplast, Coord::new(5, 5));
    let before = sim.mass();
    for turn in 1..20 {
        sim.produce_act(plant);
        assert_eq!(sim.mass(), before, "turn {turn} produced early");
    }
    sim.produce_act(plant);
    assert_eq!(sim.mass(), before + 1, "the first product lands on turn 20");
    for _ in 1..16 {
        sim.produce_act(plant);
    }
    assert_eq!(sim.mass(), before + 1, "and the cycle is sixteen turns");
    sim.produce_act(plant);
    assert_eq!(sim.mass(), before + 2);
}

#[test]
fn a_bioreactor_only_starts_sooner_it_is_not_faster() {
    let mut sim = Sim::sandbox(2);
    let reactor = sim.add_actor(Kind::Bioreactor, Coord::new(5, 5));
    for _ in 0..16 {
        sim.produce_act(reactor);
    }
    assert_eq!(sim.mass(), 2, "the reactor and its first cytoplasm");
    for _ in 0..15 {
        sim.produce_act(reactor);
    }
    assert_eq!(sim.mass(), 2);
    sim.produce_act(reactor);
    assert_eq!(sim.mass(), 3);
}

#[test]
fn a_forge_makes_bone_and_circuitry_in_equal_measure() {
    let mut sim = Sim::sandbox(3);
    let forge = sim.add_actor(Kind::BiometalForge, Coord::new(10, 10));
    for _ in 0..(16 * 40) {
        sim.produce_act(forge);
    }
    let calcium = count_in_mass(&sim, Kind::Calcium);
    let electronics = count_in_mass(&sim, Kind::Electronics);
    assert_eq!(calcium + electronics, 40);
    assert!(calcium > 8 && electronics > 8, "{calcium} / {electronics}");
}

#[test]
fn primordial_soup_stops_making_plain_nuclei_past_the_cap() {
    let mut sim = Sim::sandbox(4);
    let soup = sim.add_actor(Kind::PrimordialSoup, Coord::new(10, 10));
    for _ in 0..(16 * 60) {
        sim.produce_act(soup);
    }
    let nuclei = count_in_mass(&sim, Kind::Nucleus);
    assert!(nuclei > SOUP_NUCLEUS_CAP, "it made some nuclei: {nuclei}");
    assert!(nuclei <= SOUP_NUCLEUS_CAP + 1, "and then stopped: {nuclei}");
    let plain = sim
        .player_mass()
        .iter()
        .filter(|id| is_unupgraded_nucleus(kind(&sim, **id)))
        .count();
    assert_eq!(plain, nuclei);
}

#[test]
fn a_producer_with_nowhere_to_put_it_keeps_trying() {
    let mut sim = Sim::sandbox(5);
    for cell in [Coord::new(4, 5), Coord::new(6, 5), Coord::new(5, 4), Coord::new(5, 6)] {
        sim.set_props(cell, false, false, true);
    }
    let plant = sim.add_actor(Kind::Chloroplast, Coord::new(5, 5));
    for _ in 0..40 {
        sim.produce_act(plant);
    }
    assert_eq!(sim.mass(), 1, "nothing was produced");
    let next_food = match &sim.actors().get(plant).expect("alive").extra {
        Extra::Chloroplast { next_food, .. } => *next_food,
        _ => panic!("a producer"),
    };
    assert!(next_food <= 0, "and the timer is still due");
}

#[test]
fn a_crafting_material_upgrades_a_neighbour_and_becomes_cytoplasm() {
    let mut sim = Sim::sandbox(6);
    let calcium = sim.add_actor(Kind::Calcium, Coord::new(5, 5));
    let membrane = sim.add_actor(Kind::Membrane, Coord::new(6, 5));
    sim.craft(calcium);
    assert!(!alive(&sim, calcium), "the material was spent");
    assert!(!alive(&sim, membrane), "the membrane was replaced");
    let grown = sim.actor_at(Coord::new(6, 5)).expect("something grew");
    assert_eq!(kind(&sim, grown), Kind::ReinforcedMembrane);
    let left = sim.actor_at(Coord::new(5, 5)).expect("a byproduct");
    assert_eq!(kind(&sim, left), Kind::Cytoplasm);
    assert_eq!(sim.mass(), 2, "mass is conserved");
}

#[test]
fn a_crafting_material_will_not_touch_a_nucleus() {
    let mut sim = Sim::sandbox(7);
    let calcium = sim.add_actor(Kind::Calcium, Coord::new(5, 5));
    let nucleus = sim.add_actor(Kind::Nucleus, Coord::new(6, 5));
    sim.craft(calcium);
    assert!(alive(&sim, calcium));
    assert_eq!(kind(&sim, nucleus), Kind::Nucleus);
}

#[test]
fn a_material_of_the_wrong_kind_is_refused_once_a_path_is_locked_in() {
    let mut sim = Sim::sandbox(8);
    let maw = sim.add_actor(Kind::Maw, Coord::new(5, 5));
    assert!(sim.upgrade(maw, Resource::Calcium));
    assert!(!sim.upgrade(maw, Resource::Electronics));
    assert!(sim.upgrade(maw, Resource::Calcium));
    assert!(sim.upgrade(maw, Resource::Calcium));
    let grown = sim.actor_at(Coord::new(5, 5)).expect("a maw");
    assert_eq!(kind(&sim, grown), Kind::ReinforcedMaw);
}

#[test]
fn every_upgrade_path_leads_where_the_table_says() {
    let paths = [
        (Kind::Nucleus, Resource::Calcium, 1, Kind::EyeCore),
        (Kind::Nucleus, Resource::Electronics, 2, Kind::SmartCore),
        (Kind::EyeCore, Resource::Calcium, 2, Kind::LaserCore),
        (Kind::EyeCore, Resource::Electronics, 2, Kind::TerrorCore),
        (Kind::SmartCore, Resource::Calcium, 2, Kind::GravityCore),
        (Kind::SmartCore, Resource::Electronics, 3, Kind::QuantumCore),
        (Kind::Membrane, Resource::Calcium, 1, Kind::ReinforcedMembrane),
        (Kind::Membrane, Resource::Electronics, 1, Kind::Maw),
        (Kind::ReinforcedMembrane, Resource::Calcium, 3, Kind::ForceField),
        (Kind::ReinforcedMembrane, Resource::Electronics, 1, Kind::PhaseMembrane),
        (Kind::Maw, Resource::Calcium, 3, Kind::ReinforcedMaw),
        (Kind::Maw, Resource::Electronics, 3, Kind::Tentacle),
        (Kind::Chloroplast, Resource::Calcium, 1, Kind::Bioreactor),
        (Kind::Chloroplast, Resource::Electronics, 1, Kind::Cultivator),
        (Kind::Bioreactor, Resource::Calcium, 3, Kind::BiometalForge),
        (Kind::Bioreactor, Resource::Electronics, 2, Kind::PrimordialSoup),
        (Kind::Cultivator, Resource::Calcium, 2, Kind::Extractor),
        (Kind::Cultivator, Resource::Electronics, 2, Kind::Butcher),
    ];
    for (from, resource, amount, into) in paths {
        let mut sim = Sim::sandbox(9);
        let id = sim.add_actor(from, Coord::new(5, 5));
        for step in 1..amount {
            assert!(sim.upgrade(id, resource), "{from:?} step {step}");
            assert!(alive(&sim, id), "{from:?} finished early");
        }
        assert!(sim.upgrade(id, resource), "{from:?} last step");
        let grown = sim.actor_at(Coord::new(5, 5)).expect("something grew");
        assert_eq!(kind(&sim, grown), into, "{from:?} + {resource:?}");
        assert!(sim.player_mass().contains(&grown));
    }
}

#[test]
fn upgrading_a_nucleus_keeps_you_in_control_of_it() {
    let mut sim = Sim::sandbox(10);
    let nucleus = sim.add_actor(Kind::Nucleus, Coord::new(5, 5));
    let other = sim.add_actor(Kind::Nucleus, Coord::new(9, 9));
    sim.set_active_nucleus(nucleus);
    assert!(sim.upgrade(nucleus, Resource::Calcium));
    let grown = sim.actor_at(Coord::new(5, 5)).expect("an eye core");
    assert_eq!(kind(&sim, grown), Kind::EyeCore);
    assert_eq!(sim.active_nucleus(), Some(grown), "control followed it");
    assert_ne!(sim.active_nucleus(), Some(other));
}

#[test]
fn walking_a_nucleus_into_a_material_upgrades_it() {
    let mut sim = Sim::sandbox(11);
    let nucleus = sim.add_actor(Kind::Nucleus, Coord::new(5, 5));
    sim.add_actor(Kind::Calcium, Coord::new(6, 5));
    sim.set_active_nucleus(nucleus);
    assert!(sim.attack_move(nucleus, Coord::new(6, 5)));
    let grown = sim.actor_at(Coord::new(6, 5)).expect("an eye core");
    assert_eq!(kind(&sim, grown), Kind::EyeCore);
    assert_eq!(sim.actors().get(grown).unwrap().awareness, 6);
    let byproduct = sim.actor_at(Coord::new(5, 5)).expect("a cytoplasm");
    assert_eq!(kind(&sim, byproduct), Kind::Cytoplasm);
}

#[test]
fn an_interrupted_upgrade_refunds_the_whole_path() {
    let mut sim = Sim::sandbox(12);
    let membrane = sim.add_actor(Kind::ReinforcedMembrane, Coord::new(5, 5));
    assert!(sim.upgrade(membrane, Resource::Calcium));
    sim.unslime_organelle(membrane);
    let dust = (0..20)
        .flat_map(|y| (0..20).map(move |x| Coord::new(x, y)))
        .filter_map(|c| sim.item_at(c))
        .filter(|i| sim.items().get(*i).expect("on the floor").kind == ItemKind::CalciumDust)
        .count();
    assert_eq!(dust, 4, "one from the membrane and three unpaid");
}

#[test]
fn a_cultivator_outheals_the_corpse_beside_it() {
    let mut sim = Sim::sandbox(13);
    let cultivator = sim.add_actor(Kind::Cultivator, Coord::new(5, 5));
    let corpse = sim.add_actor(Kind::DissolvingTank, Coord::new(6, 5));
    for _ in 0..30 {
        sim.digest(corpse);
        sim.cultivate(cultivator);
    }
    assert!(alive(&sim, corpse), "it never finishes");
    let body = sim.actors().get(corpse).unwrap();
    assert_eq!(body.hp, body.max_hp);
    assert!(count_in_mass(&sim, Kind::Calcium) > 0, "and it hands over free product");
}

#[test]
fn a_butcher_squeezes_an_extra_product_out_of_every_corpse() {
    let mut sim = Sim::sandbox(14);
    sim.add_actor(Kind::Butcher, Coord::new(1, 1));
    let corpse = sim.add_actor(Kind::DissolvingMilitia, Coord::new(5, 5));
    for _ in 0..8 {
        sim.digest(corpse);
    }
    assert_eq!(count_in_mass(&sim, Kind::Cytoplasm), 2, "one from the corpse and one from the butcher");
}

#[test]
fn an_extractor_hauls_a_distant_corpse_toward_itself() {
    let mut sim = Sim::sandbox(15);
    let extractor = sim.add_actor(Kind::Extractor, Coord::new(5, 5));
    sim.add_actor(Kind::Cytoplasm, Coord::new(6, 5));
    let corpse = sim.add_actor(Kind::DissolvingMilitia, Coord::new(7, 5));
    let before = pos(&sim, corpse);
    sim.extract(extractor);
    assert_ne!(pos(&sim, corpse), before, "the corpse was pulled in");
}

#[test]
fn a_gravity_core_drags_its_neighbours_along() {
    let mut sim = Sim::sandbox(16);
    let core = sim.add_actor(Kind::GravityCore, Coord::new(5, 5));
    let near = sim.add_actor(Kind::Cytoplasm, Coord::new(6, 5));
    let far = sim.add_actor(Kind::Cytoplasm, Coord::new(15, 15));
    sim.gravity_pull(core);
    assert_ne!(pos(&sim, near), Coord::new(6, 5), "the near one moved");
    assert_eq!(pos(&sim, far), Coord::new(15, 15), "the far one did not");
    assert_eq!(pos(&sim, core), Coord::new(5, 5), "the core stayed put");
    assert!(!sim.actors().get(core).unwrap().anchor, "the anchor is released again");
}

#[test]
fn a_gravity_core_does_not_haul_itself() {
    let mut sim = Sim::sandbox(17);
    let core = sim.add_actor(Kind::GravityCore, Coord::new(5, 5));
    sim.add_actor(Kind::Cytoplasm, Coord::new(6, 5));
    sim.gravity_pull(core);
    assert_eq!(pos(&sim, core), Coord::new(5, 5));
}

#[test]
fn an_anchored_core_is_left_out_of_the_drag() {
    let mut sim = Sim::sandbox(18);
    let core = sim.add_actor(Kind::GravityCore, Coord::new(5, 5));
    let tail = sim.add_actor(Kind::Cytoplasm, Coord::new(6, 5));
    sim.set_anchor(core, true);
    sim.attack_move(tail, Coord::new(6, 4));
    assert_eq!(pos(&sim, core), Coord::new(5, 5));
}

#[test]
fn a_terror_core_costs_an_adjacent_human_its_turn() {
    let mut sim = Sim::sandbox(19);
    let core = sim.add_actor(Kind::TerrorCore, Coord::new(5, 5));
    let militia = sim.add_actor(Kind::Militia, Coord::new(6, 5));
    let before = sim.schedule().scheduled_for(militia).expect("on the clock");
    sim.terrify(core);
    assert_eq!(sim.schedule().scheduled_for(militia), None, "lifted off it");
    sim.terror_post_schedule(core);
    let after = sim.schedule().scheduled_for(militia).expect("back on it");
    assert!(after > before, "and put back later: {before} -> {after}");
    assert_eq!(sim.actors().get(militia).unwrap().delay, 16, "with its own speed restored");
}

#[test]
fn a_terror_core_never_schedules_the_same_human_twice() {
    let mut sim = Sim::sandbox(20);
    let core = sim.add_actor(Kind::TerrorCore, Coord::new(5, 5));
    let militia = sim.add_actor(Kind::Militia, Coord::new(6, 5));
    sim.terrify(core);
    sim.terror_post_schedule(core);
    sim.terror_post_schedule(core);
    assert_eq!(sim.schedule().entries_for(militia), 1, "one entry, not two");
}

#[test]
fn a_dead_terror_core_hands_its_victims_back() {
    let mut sim = Sim::sandbox(21);
    let core = sim.add_actor(Kind::TerrorCore, Coord::new(5, 5));
    let militia = sim.add_actor(Kind::Militia, Coord::new(6, 5));
    sim.add_actor(Kind::Nucleus, Coord::new(9, 9));
    sim.terrify(core);
    sim.destroy_organelle(core);
    assert!(sim.schedule().scheduled_for(militia).is_some(), "the militia is not frozen forever");
    assert_eq!(sim.actors().get(militia).unwrap().delay, 16);
}

#[test]
fn a_quantum_core_slips_through_its_own_body_for_half_price() {
    let mut sim = Sim::sandbox(22);
    let core = sim.add_actor(Kind::QuantumCore, Coord::new(5, 5));
    sim.add_actor(Kind::Cytoplasm, Coord::new(6, 5));
    sim.set_active_nucleus(core);
    let now = sim.schedule().time();
    assert!(sim.attack_move(core, Coord::new(6, 5)));
    assert_eq!(sim.schedule().scheduled_for(core), Some(now + 4), "a swap costs four");
    assert_eq!(sim.actors().get(core).unwrap().delay, 8, "and the next move costs eight");
    sim.set_active_nucleus(core);
    let now = sim.schedule().time();
    assert!(sim.attack_move(core, Coord::new(5, 4)));
    assert_eq!(sim.schedule().scheduled_for(core), Some(now + 8));
}

#[test]
fn a_smart_core_acts_twice_as_often_as_a_plain_one() {
    let mut sim = Sim::sandbox(23);
    let smart = sim.add_actor(Kind::SmartCore, Coord::new(5, 5));
    let plain = sim.add_actor(Kind::Nucleus, Coord::new(9, 9));
    sim.set_active_nucleus(smart);
    let now = sim.schedule().time();
    assert_eq!(sim.schedule().scheduled_for(smart), Some(now + 8));
    assert_eq!(
        sim.schedule().scheduled_for(plain),
        Some(now + 8),
        "every nucleus adopts the active one's speed"
    );
}
