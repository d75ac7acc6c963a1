use amoeba_rl::sim::{Difficulty, Rules};

#[test]
fn difficulty_tables_match_the_spec() {
    let normal = Difficulty::Normal.rules();
    assert_eq!((normal.map_width, normal.map_height), (48, 48));
    assert_eq!(normal.cities_required(), 8);
    let easy = Difficulty::Easy.rules();
    assert_eq!(easy.spawn_rate, 75);
    assert_eq!(easy.cities_required(), 6);
    let gj = Difficulty::Gj.rules();
    assert_eq!((gj.map_width, gj.map_height), (64, 48));
    assert_eq!(gj.city_armor(0), 32);
    assert_eq!(gj.cities_required(), 16);
}

#[test]
fn every_gate_costs_one_step_more_than_the_last() {
    let normal = Difficulty::Normal.rules();
    assert_eq!(normal.city_armor(0), 20, "the first gate is cheap");
    assert_eq!(normal.city_armor(1), 40);
    assert_eq!(normal.city_armor(normal.cities_required() - 1), 160);
}

// -- more cases --------------------------------------------------------------

#[test]
fn difficulties_have_title_screen_names() {
    assert_eq!(Difficulty::Normal.name(), "Normal");
    assert_eq!(Difficulty::Easy.name(), "Easy");
    assert_eq!(Difficulty::Gj.name(), "GJ");
    assert_eq!(Difficulty::default(), Difficulty::Normal);
}

#[test]
fn gate_prices_climb_by_one_step_on_every_difficulty() {
    for d in [Difficulty::Normal, Difficulty::Easy, Difficulty::Gj] {
        let r: Rules = d.rules();
        for destroyed in 0..r.num_cities {
            assert_eq!(
                r.city_armor(destroyed + 1) - r.city_armor(destroyed),
                r.city_armor_step
            );
        }
        assert!(r.cities_required() >= 1 && r.cities_required() <= r.num_cities);
    }
}
