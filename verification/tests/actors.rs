use amoeba_rl::sim::actors::{
    is_dissolving, is_militia_family, is_npc, is_organelle, is_reinforced_membrane_family,
    is_tank_family, is_upgradable, kills_armored_attackers, Actor, ActorStore, Extra, ItemKind, Kind,
    UpgradeState,
};
use amoeba_rl::sim::actors::{Item, ItemStore};
use amoeba_rl::sim::grid::Coord;

/// Every kind the game can produce, so table coverage tests stay honest.
const ALL: [Kind; 37] = [
    Kind::Nucleus,
    Kind::EyeCore,
    Kind::SmartCore,
    Kind::LaserCore,
    Kind::TerrorCore,
    Kind::GravityCore,
    Kind::QuantumCore,
    Kind::Cytoplasm,
    Kind::Calcium,
    Kind::Electronics,
    Kind::Membrane,
    Kind::ReinforcedMembrane,
    Kind::Maw,
    Kind::ForceField,
    Kind::PhaseMembrane,
    Kind::ReinforcedMaw,
    Kind::Tentacle,
    Kind::Chloroplast,
    Kind::Bioreactor,
    Kind::Cultivator,
    Kind::BiometalForge,
    Kind::PrimordialSoup,
    Kind::Extractor,
    Kind::Butcher,
    Kind::Militia,
    Kind::Hunter,
    Kind::Scout,
    Kind::Tank,
    Kind::Mech,
    Kind::Caravan,
    Kind::City,
    Kind::DissolvingMilitia,
    Kind::DissolvingHunter,
    Kind::DissolvingScout,
    Kind::DissolvingTank,
    Kind::DissolvingMech,
    Kind::DissolvingCaravan,
];

#[test]
fn every_kind_has_a_name_and_a_glyph() {
    for kind in ALL {
        let stats = kind.stats();
        assert!(!stats.name.is_empty(), "{kind:?} has no name");
        assert!(!stats.description.is_empty(), "{kind:?} has no description");
        assert!(stats.delay >= 0);
    }
}

#[test]
fn names_are_unique_except_where_the_original_shared_them() {
    let mut names: Vec<&str> = ALL.iter().map(|k| k.name()).collect();
    names.sort_unstable();
    let before = names.len();
    names.dedup();
    assert_eq!(before, names.len(), "duplicate entity names");
}

#[test]
fn armour_marks_exactly_the_tank_family() {
    for kind in ALL {
        assert_eq!(
            kind.stats().armor > 0,
            is_tank_family(kind),
            "{kind:?} armour disagrees with the tank family"
        );
    }
}

#[test]
fn slime_marks_exactly_the_player_side() {
    for kind in ALL {
        assert_eq!(
            kind.stats().slime > 0,
            is_organelle(kind),
            "{kind:?} slime disagrees with organelle membership"
        );
    }
}

#[test]
fn every_dissolving_form_round_trips() {
    for kind in ALL.into_iter().filter(|k| is_npc(*k)) {
        let dissolving = kind.becomes_on_eaten().expect("a human dissolves");
        assert!(is_dissolving(dissolving));
        assert_eq!(dissolving.rescues_to(), Some(kind));
        assert!(dissolving.stats().max_hp > 0);
        assert!(!dissolving.digests_to().is_empty());
        assert!(!kind.drops_on_die().is_empty());
    }
}

#[test]
fn upgrade_paths_lead_somewhere_real() {
    for kind in ALL {
        for path in kind.upgrade_paths() {
            assert!(path.amount > 0);
            assert!(is_organelle(path.result));
            assert_ne!(path.result, kind);
        }
    }
}

#[test]
fn reinforced_maw_is_not_a_reinforced_membrane() {
    assert!(!is_reinforced_membrane_family(Kind::ReinforcedMaw));
    assert!(kills_armored_attackers(Kind::ReinforcedMaw));
    assert!(!kills_armored_attackers(Kind::Maw));
    assert!(!kills_armored_attackers(Kind::Membrane));
    assert!(!kills_armored_attackers(Kind::Tentacle));
}

#[test]
fn the_tank_family_is_the_armoured_subtree() {
    assert!(is_tank_family(Kind::Mech));
    assert!(is_tank_family(Kind::Caravan));
    assert!(!is_tank_family(Kind::Militia));
    assert!(is_militia_family(Kind::Tank));
    assert!(is_militia_family(Kind::Scout));
    assert!(!is_militia_family(Kind::City));
}

#[test]
fn upgradable_agrees_with_the_path_table() {
    assert!(is_upgradable(Kind::Nucleus));
    assert!(!is_upgradable(Kind::LaserCore));
    assert!(!is_upgradable(Kind::Butcher));
    assert!(!is_upgradable(Kind::Cytoplasm));
}

#[test]
fn components_include_a_locked_in_upgrade() {
    let mut membrane = Actor::new(Kind::Membrane, Coord::new(0, 0));
    assert_eq!(
        membrane.components(),
        vec![ItemKind::BarbedWire, ItemKind::Nutrient]
    );
    // Path 0 is one calcium toward a tough membrane.
    membrane.extra = Extra::Upgrade(UpgradeState {
        path: Some(0),
        progress: 1,
    });
    assert_eq!(
        membrane.components(),
        vec![
            ItemKind::BarbedWire,
            ItemKind::Nutrient,
            ItemKind::CalciumDust
        ]
    );
}

#[test]
fn new_actors_pick_up_their_kind_state() {
    let city = Actor::new(Kind::City, Coord::new(1, 1));
    assert!(matches!(city.extra, Extra::City(_)));
    let corpse = Actor::new(Kind::DissolvingTank, Coord::new(1, 1));
    assert_eq!(corpse.hp, 24);
    assert_eq!(corpse.max_hp, 24);
    let plant = Actor::new(Kind::Chloroplast, Coord::new(1, 1));
    assert!(matches!(
        plant.extra,
        Extra::Chloroplast { next_food: 20, .. }
    ));
    let hunter = Actor::new(Kind::Hunter, Coord::new(1, 1));
    assert!(matches!(hunter.extra, Extra::Ranged(r) if r.range == 64));
}

#[test]
fn handles_are_never_reused() {
    let mut store = ActorStore::new();
    let a = store.spawn(Actor::new(Kind::Cytoplasm, Coord::new(0, 0)));
    store.remove(a);
    let b = store.spawn(Actor::new(Kind::Cytoplasm, Coord::new(1, 0)));
    assert_ne!(a, b);
    assert!(!store.contains(a));
    assert!(store.contains(b));
    assert_eq!(store.len(), 1);
    assert_eq!(store.capacity(), 2);
}

#[test]
fn iteration_is_in_creation_order() {
    let mut store = ActorStore::new();
    let ids: Vec<_> = (0..4)
        .map(|i| store.spawn(Actor::new(Kind::Cytoplasm, Coord::new(i, 0))))
        .collect();
    store.remove(ids[1]);
    let seen: Vec<_> = store.iter().into_iter().map(|(id, _)| id).collect();
    assert_eq!(seen, vec![ids[0], ids[2], ids[3]]);
}

#[test]
fn items_know_what_they_become() {
    assert_eq!(ItemKind::Nutrient.new_organelle(), Kind::Cytoplasm);
    assert_eq!(ItemKind::Dna.new_organelle(), Kind::Nucleus);
    assert_eq!(ItemKind::BarbedWire.new_organelle(), Kind::Membrane);
    assert_eq!(ItemKind::Plant.new_organelle(), Kind::Chloroplast);
}

// -- the laws on concrete values -------------------------------------------

#[test]
fn a_dissolving_tank_rescues_to_a_tank() {
    let corpse = Kind::Tank.becomes_on_eaten().unwrap();
    assert_eq!(corpse, Kind::DissolvingTank);
    assert_eq!(corpse.rescues_to(), Some(Kind::Tank));
    assert_eq!(Kind::Nucleus.becomes_on_eaten(), None);
}

#[test]
fn a_removed_handle_stays_dead_after_more_spawns() {
    let mut store = ActorStore::new();
    let a = store.spawn(Actor::new(Kind::Maw, Coord::new(0, 0)));
    assert!(store.remove(a).is_some());
    assert!(store.remove(a).is_none());
    for i in 0..5 {
        store.spawn(Actor::new(Kind::Maw, Coord::new(i, 1)));
    }
    assert!(store.get(a).is_none());
    assert_eq!(store.len(), 5);
    assert!(!store.is_empty());
}

#[test]
fn the_player_side_is_the_slimed_side() {
    assert!(Actor::new(Kind::Cytoplasm, Coord::new(0, 0)).is_player_aligned());
    assert!(!Actor::new(Kind::Militia, Coord::new(0, 0)).is_player_aligned());
}

#[test]
fn item_stores_hand_out_fresh_handles() {
    let mut items = ItemStore::new();
    let a = items.spawn(Item { kind: ItemKind::Nutrient, pos: Coord::new(2, 2) });
    let b = items.spawn(Item { kind: ItemKind::Dna, pos: Coord::new(3, 2) });
    assert_ne!(a, b);
    assert_eq!(items.get(b).map(|i| i.kind), Some(ItemKind::Dna));
    assert_eq!(items.remove(a).map(|i| i.pos), Some(Coord::new(2, 2)));
    assert!(items.get(a).is_none());
    assert_eq!(items.len(), 1);
}

#[test]
fn iteration_yields_as_many_as_are_alive() {
    let mut store = ActorStore::new();
    let ids: Vec<_> = (0..6)
        .map(|i| store.spawn(Actor::new(Kind::Cytoplasm, Coord::new(i, 0))))
        .collect();
    store.remove(ids[0]);
    store.remove(ids[4]);
    store.remove(ids[4]);
    assert_eq!(store.iter().len(), store.len());
    assert_eq!(store.len(), 4);
    assert!(store.len() <= store.capacity());
    assert_eq!(store.capacity(), 6);
}
