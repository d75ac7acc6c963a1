use std::collections::VecDeque;

use amoeba_rl::sim::actors::{is_nucleus_family, ItemKind, Kind};
use amoeba_rl::sim::grid::{Coord, Dir, Grid};
use amoeba_rl::sim::mapgen::{
    best_bridge, calculate_pockets, carve, connect_pockets, lattice, plant_pillars, shorter, sort_desc, wide_open, Bridge, CACHE_SPREAD, DNA_AMT, FOOD_AMT,
    PLANT_AMT, SITES_MIN, WIRE_AMT,
};
use amoeba_rl::sim::{Difficulty, Phase, Sim};

/// A freshly generated Normal map, ready to be inspected.
fn playing(seed: u64) -> Sim {
    let mut sim = Sim::new(seed, Difficulty::Normal);
    sim.start(Difficulty::Normal);
    sim
}

fn all_cells(sim: &Sim) -> Vec<Coord> {
    let (w, h) = (sim.grid().width(), sim.grid().height());
    (0..h).flat_map(|y| (0..w).map(move |x| Coord::new(x, y))).collect()
}

/// Every cell that is not solid rock, reachable from the player's blob.
fn reachable_open_cells(sim: &Sim) -> usize {
    let grid = sim.grid();
    let cells = (grid.width() * grid.height()) as usize;
    let mut seen = vec![false; cells];
    let start = sim.actors().get(sim.player_mass()[0]).unwrap().pos;
    let mut queue = VecDeque::from([start]);
    let index = |c: Coord| (c.y * grid.width() + c.x) as usize;
    seen[index(start)] = true;
    let mut count = 1;
    while let Some(at) = queue.pop_front() {
        for dir in [Dir::Left, Dir::Right, Dir::Up, Dir::Down] {
            let off = dir.offset();
            let next = Coord::new(at.x + off.x, at.y + off.y);
            if !grid.in_bounds(next) || seen[index(next)] || sim.is_wall(next) {
                continue;
            }
            seen[index(next)] = true;
            count += 1;
            queue.push_back(next);
        }
    }
    count
}

fn open_cells(sim: &Sim) -> usize {
    all_cells(sim).into_iter().filter(|c| !sim.is_wall(*c)).count()
}

fn loot(sim: &Sim) -> Vec<(ItemKind, Coord)> {
    all_cells(sim)
        .into_iter()
        .filter_map(|c| sim.item_at(c).map(|id| (sim.items().get(id).unwrap().kind, c)))
        .collect()
}

fn carved(sim: &Sim) -> Vec<Coord> {
    all_cells(sim).into_iter().filter(|c| sim.grid().transparent(*c)).collect()
}

fn openings(sim: &Sim, at: Coord) -> usize {
    sim.grid().adjacent(at).into_iter().filter(|c| sim.grid().transparent(*c)).count()
}

fn pos_of(sim: &Sim, id: amoeba_rl::sim::actors::ActorId) -> Coord {
    sim.actors().get(id).unwrap().pos
}

#[test]
fn nowhere_is_more_than_a_step_from_rock() {
    for seed in 0..24 {
        let sim = playing(seed);
        for at in carved(&sim) {
            let beside_rock = (-1..=1)
                .any(|dy| (-1..=1).any(|dx| !sim.grid().transparent(Coord::new(at.x + dx, at.y + dy))));
            assert!(beside_rock, "seed {seed}: {at:?} is in the middle of a hall");
        }
    }
}

#[test]
fn most_of_the_cavern_is_somewhere_you_could_corner_something() {
    for seed in 0..16 {
        let sim = playing(seed);
        let open = carved(&sim);
        let cheap = open.iter().filter(|c| openings(&sim, **c) <= 2).count();
        let share = cheap * 100 / open.len();
        assert!(share >= 30, "seed {seed}: only {share}% costs under four");
        let sum: usize = open.iter().map(|c| openings(&sim, *c)).sum();
        let mean = sum as f64 / open.len() as f64;
        assert!(mean < 3.0, "seed {seed}: mean {mean:.2} ways out of a cell");
    }
}

#[test]
fn the_cavern_is_dense_without_being_solid() {
    for seed in 0..16 {
        let sim = playing(seed);
        let cells = (sim.grid().width() * sim.grid().height()) as usize;
        let share = carved(&sim).len() * 100 / cells;
        assert!(share > 25, "seed {seed}: only {share}% of the map is floor");
        assert!(share < 55, "seed {seed}: {share}% floor is an arena");
    }
}

#[test]
fn rock_actually_stops_a_militias_eyes() {
    let sim = playing(9);
    let radius = Kind::Militia.stats().awareness;
    let open = carved(&sim);
    let full: usize = open.iter().map(|c| sim.grid().cells_in_diamond(*c, radius).len()).sum();
    let seen: usize = open
        .iter()
        .map(|c| {
            sim.grid()
                .cells_in_diamond(*c, radius)
                .into_iter()
                .filter(|t| sim.grid().line_of_sight(*c, *t))
                .count()
        })
        .sum();
    let share = seen * 100 / full;
    assert!(share < 80, "rock hides almost nothing: {share}% still visible");
    assert!(share > 30, "rock hides almost everything: {share}% visible");
}

#[test]
fn the_whole_cavern_is_connected() {
    for seed in 0..40 {
        let sim = playing(seed);
        assert_eq!(reachable_open_cells(&sim), open_cells(&sim), "seed {seed} left an unreachable pocket");
    }
}

#[test]
fn the_border_is_solid() {
    let sim = playing(5);
    let grid = sim.grid();
    for x in 0..grid.width() {
        assert!(!grid.walkable(Coord::new(x, 0)));
        assert!(!grid.walkable(Coord::new(x, grid.height() - 1)));
    }
    for y in 0..grid.height() {
        assert!(!grid.walkable(Coord::new(0, y)));
        assert!(!grid.walkable(Coord::new(grid.width() - 1, y)));
    }
}

#[test]
fn the_starting_blob_is_six_connected_cells() {
    for seed in 0..20 {
        let sim = playing(seed);
        assert_eq!(sim.mass(), 6);
        let nuclei = sim
            .player_mass()
            .iter()
            .filter(|id| is_nucleus_family(sim.actors().get(**id).unwrap().kind))
            .count();
        assert_eq!(nuclei, 2, "seed {seed}");
        for id in sim.player_mass() {
            let pos = pos_of(&sim, *id);
            let touching = sim
                .player_mass()
                .iter()
                .filter(|other| **other != *id && pos_of(&sim, **other).adjacent_to(pos))
                .count();
            assert!(touching > 0, "seed {seed}: {pos:?} is detached");
        }
    }
}

#[test]
fn the_amoeba_wakes_up_deep() {
    for seed in 0..24 {
        let sim = playing(seed);
        let floor: Vec<i32> = all_cells(&sim)
            .into_iter()
            .map(|c| sim.depth_at(c))
            .filter(|d| *d != i32::MAX)
            .collect();
        let here = sim.depth_at(pos_of(&sim, sim.player_mass()[0]));
        let deeper = floor.iter().filter(|d| **d > here).count();
        assert!(
            deeper * 5 < floor.len(),
            "seed {seed}: woke up {here} from a gate, with {deeper} of {} cells deeper",
            floor.len()
        );
    }
}

#[test]
fn every_gate_has_exactly_one_doorway() {
    for seed in 0..20 {
        let sim = playing(seed);
        assert_eq!(sim.cities().len(), 12, "seed {seed}");
        for id in sim.cities() {
            let pos = pos_of(&sim, *id);
            assert!(!sim.grid().transparent(pos), "a gate sits inside rock");
            let doors = sim.grid().adjacent_walkable(pos).len();
            assert_eq!(doors, 1, "seed {seed}: gate at {pos:?}");
        }
    }
}

#[test]
fn gates_are_spread_around_the_map() {
    for seed in 0..12 {
        let sim = playing(seed);
        let at: Vec<Coord> = sim.cities().iter().map(|id| pos_of(&sim, *id)).collect();
        for (i, a) in at.iter().enumerate() {
            let nearest = at
                .iter()
                .enumerate()
                .filter(|(j, _)| *j != i)
                .map(|(_, b)| a.taxi(*b))
                .min()
                .expect("more than one gate");
            assert!(nearest >= 2, "seed {seed}: two gates at {a:?}");
        }
    }
}

#[test]
fn loot_counts_match_the_generator() {
    for seed in 0..10 {
        let sim = playing(seed);
        let mut counts = [0_i32; 6];
        for (kind, _) in loot(&sim) {
            let slot = match kind {
                ItemKind::Nutrient => 0,
                ItemKind::CalciumDust => 1,
                ItemKind::SiliconDust => 2,
                ItemKind::BarbedWire => 3,
                ItemKind::Plant => 4,
                ItemKind::Dna => 5,
            };
            counts[slot] += 1;
        }
        assert_eq!(counts[0], FOOD_AMT, "seed {seed} nutrients");
        assert_eq!(counts[3], WIRE_AMT, "seed {seed} wire");
        assert_eq!(counts[4], PLANT_AMT, "seed {seed} plants");
        assert_eq!(counts[5], DNA_AMT, "seed {seed} dna");
        assert_eq!(counts[1] + counts[2], 0, "no dust is scattered at start");
    }
}

#[test]
fn wire_lies_at_the_gates_and_the_greenery_lies_deep() {
    for seed in 0..12 {
        let sim = playing(seed);
        let mean = |kind: ItemKind| {
            let of: Vec<i32> = loot(&sim)
                .into_iter()
                .filter(|(k, _)| *k == kind)
                .map(|(_, c)| sim.depth_at(c))
                .filter(|d| *d != i32::MAX)
                .collect();
            let n = of.len().max(1) as i32;
            of.iter().sum::<i32>() / n
        };
        let wire = mean(ItemKind::BarbedWire);
        let food = mean(ItemKind::Nutrient);
        let plants = mean(ItemKind::Plant);
        assert!(wire < food, "seed {seed}: wire {wire} vs caches {food}");
        assert!(food < plants, "seed {seed}: caches {food} vs plants {plants}");
    }
}

#[test]
fn nutrients_come_in_caches_rather_than_confetti() {
    for seed in 0..8 {
        let sim = playing(seed);
        let food: Vec<Coord> = loot(&sim)
            .into_iter()
            .filter(|(k, _)| *k == ItemKind::Nutrient)
            .map(|(_, c)| c)
            .collect();
        let lonely = food
            .iter()
            .filter(|c| !food.iter().any(|o| *o != **c && o.taxi(**c) <= CACHE_SPREAD * 2))
            .count();
        assert!(lonely * 4 < food.len(), "seed {seed}: {lonely} of {} nutrients are on their own", food.len());
    }
}

#[test]
fn items_never_share_a_cell_with_each_other() {
    let sim = playing(21);
    let mut seen = vec![false; (sim.grid().width() * sim.grid().height()) as usize];
    for c in all_cells(&sim) {
        if sim.item_at(c).is_some() {
            let i = (c.y * sim.grid().width() + c.x) as usize;
            assert!(!seen[i]);
            seen[i] = true;
            assert!(sim.grid().walkable(c) || sim.actor_at(c).is_some());
        }
    }
}

#[test]
fn generation_is_reproducible() {
    let a = playing(1234);
    let b = playing(1234);
    let cells = |sim: &Sim| all_cells(sim).into_iter().map(|c| sim.grid().walkable(c)).collect::<Vec<_>>();
    assert_eq!(cells(&a), cells(&b));
    let positions = |sim: &Sim| sim.player_mass().iter().map(|id| pos_of(sim, *id)).collect::<Vec<_>>();
    assert_eq!(positions(&a), positions(&b));
    assert_eq!(a.junctions(), b.junctions());
}

#[test]
fn every_chamber_is_somewhere_you_can_stand() {
    for seed in 0..12 {
        let sim = playing(seed);
        assert!(sim.junctions().len() >= SITES_MIN, "seed {seed}: {} chambers", sim.junctions().len());
        for hub in sim.junctions() {
            assert!(!sim.is_wall(*hub), "seed {seed}: chamber centre {hub:?} is rock");
        }
    }
}

#[test]
fn starting_puts_the_run_in_play_with_a_nucleus_in_charge() {
    let sim = playing(42);
    assert_eq!(sim.phase(), Phase::Playing);
    assert_eq!(sim.mass(), 6);
    assert!(sim.active_nucleus().is_some());
    assert!(sim.effects().is_empty());
}

#[test]
fn generated_gates_are_priced_at_the_first_step() {
    let sim = playing(28);
    let step = sim.rules().city_armor_step;
    assert!(sim.cities().iter().all(|id| sim.actors().get(*id).unwrap().armor == step));
}

#[test]
fn occupancy_and_walkability_agree() {
    let sim = playing(3);
    for (id, actor) in sim.actors().iter() {
        assert_eq!(sim.actor_at(actor.pos), Some(id));
        assert!(!sim.grid().walkable(actor.pos));
    }
}

#[test]
fn the_lattice_reaches_both_margins() {
    assert_eq!(lattice(48, 4), vec![4, 13, 23, 33, 43]);
    assert_eq!(lattice(12, 4), vec![4, 7]);
}

#[test]
fn the_closest_pair_is_found_first_on_ties() {
    let a = vec![Coord::new(1, 1), Coord::new(5, 1)];
    let b = vec![Coord::new(7, 1), Coord::new(3, 1)];
    let found = best_bridge(&a, &b).expect("both sides are non-empty");
    assert_eq!(found, Bridge { from: Coord::new(1, 1), to: Coord::new(3, 1), dist: 2 });
    assert_eq!(best_bridge(&a, &Vec::new()), None);
    let long = Bridge { from: Coord::new(0, 0), to: Coord::new(9, 0), dist: 9 };
    assert_eq!(shorter(Some(long), Some(found)), Some(found));
    assert_eq!(shorter(Some(found), None), Some(found));
    assert_eq!(shorter(None, Some(long)), Some(long));
}

#[test]
fn sorting_by_key_keeps_ties_in_order() {
    let items = vec![(1, Coord::new(0, 0)), (3, Coord::new(1, 0)), (1, Coord::new(2, 0)), (2, Coord::new(3, 0))];
    assert_eq!(
        sort_desc(&items),
        vec![(3, Coord::new(1, 0)), (2, Coord::new(3, 0)), (1, Coord::new(0, 0)), (1, Coord::new(2, 0))]
    );
}

#[test]
fn carving_leaves_the_outer_ring_alone() {
    let mut g = Grid::new(5, 5);
    assert!(!carve(&mut g, Coord::new(0, 2)));
    assert!(!g.walkable(Coord::new(0, 2)));
    assert!(carve(&mut g, Coord::new(2, 2)));
    assert!(g.walkable(Coord::new(2, 2)) && g.transparent(Coord::new(2, 2)));
}

#[test]
fn pillars_leave_no_hall_standing() {
    let mut g = Grid::new(9, 9);
    for y in 1..8 {
        for x in 1..8 {
            carve(&mut g, Coord::new(x, y));
        }
    }
    assert!(wide_open(&g, Coord::new(4, 4)));
    let mut rng = fastrand::Rng::with_seed(7);
    plant_pillars(&mut g, &mut rng);
    for y in 1..8 {
        for x in 1..8 {
            assert!(!wide_open(&g, Coord::new(x, y)), "({x}, {y}) is still a hall");
        }
    }
}

#[test]
fn erosion_only_opens_alcoves_beside_open_floor() {
    for seed in 0..6u64 {
        let mut g = Grid::new(20, 20);
        for y in 8..12 {
            for x in 3..17 {
                g.set_props(Coord::new(x, y), true, true, false);
            }
        }
        let before: Vec<bool> = (0..20)
            .flat_map(|y| (0..20).map(move |x| Coord::new(x, y)))
            .map(|c| g.walkable(c))
            .collect();
        let mut rng = fastrand::Rng::with_seed(seed);
        amoeba_rl::sim::mapgen::erode(&mut g, &mut rng);
        let mut opened = 0;
        for y in 0..20 {
            for x in 0..20 {
                let c = Coord::new(x, y);
                if !before[(y * 20 + x) as usize] && g.walkable(c) {
                    opened += 1;
                    assert!(x > 0 && y > 0 && x < 19 && y < 19, "the border stays rock");
                    assert!(!g.adjacent_walkable(c).is_empty(), "an alcove hangs off open floor");
                }
            }
        }
        assert!(opened > 0, "seed {seed}: erosion ate nothing");
    }
}

#[test]
fn pockets_are_the_separate_rooms_and_connecting_joins_them() {
    // Two open rooms, columns 1..=3 and 5..=7 of rows 1..=5, split by a rock column.
    let mut g = Grid::new(9, 7);
    for y in 1..6 {
        for x in (1..4).chain(5..8) {
            g.set_props(Coord::new(x, y), true, true, false);
        }
    }
    let pockets = calculate_pockets(&g);
    assert_eq!(pockets.len(), 2);
    assert_eq!(pockets[0].len(), 15);
    assert_eq!(pockets[1].len(), 15);
    assert_eq!(pockets[0][0], Coord::new(1, 1));
    assert_eq!(pockets[1][0], Coord::new(5, 1));
    assert!(pockets[0].iter().all(|c| c.x < 4));
    assert!(pockets[1].iter().all(|c| c.x > 4));
    for p in &pockets {
        for k in 1..p.len() {
            assert!((0..k).any(|j| p[j].adjacent_to(p[k])));
        }
    }
    connect_pockets(&mut g);
    assert_eq!(calculate_pockets(&g).len(), 1);
}
