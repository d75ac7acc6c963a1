use amoeba_rl::sim::actors::{palette, Kind};
use amoeba_rl::sim::grid::Coord;
use amoeba_rl::sim::view::BLINK_SPEED;
use amoeba_rl::sim::{Difficulty, Phase, Sim};

#[test]
fn a_new_sim_waits_on_the_title_screen() {
    let sim = Sim::new(1, Difficulty::Normal);
    assert_eq!(sim.phase(), Phase::Title);
    assert_eq!(sim.mass(), 0);
}

#[test]
fn the_title_screen_renders_an_empty_map() {
    let sim = Sim::new(1, Difficulty::Normal);
    let view = sim.view(0);
    assert_eq!(view.phase, Phase::Title);
    assert!(view.cells.iter().all(|c| c.glyph == ' '));
    assert!(view.organelles.is_empty());
}

#[test]
fn a_sandbox_view_covers_its_twenty_by_twenty_arena() {
    let sim = Sim::sandbox(3);
    let view = sim.view(0);
    assert_eq!((view.width, view.height), (20, 20));
    assert_eq!(view.cells.len(), 400);
    assert!(view.cell(20, 0).is_none());
    assert!(view.cell(-1, 3).is_none());
}

#[test]
fn what_the_mass_sees_is_drawn_and_the_rest_is_remembered_floor() {
    let mut sim = Sim::sandbox(4);
    let nucleus = sim.add_actor(Kind::Nucleus, Coord::new(5, 5));
    sim.update_player_fov();
    let view = sim.view(0);
    let here = view.cell(5, 5).expect("on the map");
    assert_eq!(here.glyph, Kind::Nucleus.stats().glyph);
    assert_eq!(here.bg, palette::BODY_SLIME);
    assert!(sim.grid().explored(Coord::new(5, 5)));
    let far = view.cell(17, 17).expect("on the map");
    assert_eq!(far.glyph, '.', "explored floor out of sight");
    assert_eq!(far.fg, palette::FLOOR);
    let rock = view.cell(0, 0).expect("on the map");
    assert_eq!(rock.glyph, '#');
    assert!(sim.actors().contains(nucleus));
}

#[test]
fn the_sidebar_lists_the_mass_but_its_cytoplasm() {
    let mut sim = Sim::sandbox(5);
    sim.add_actor(Kind::Nucleus, Coord::new(5, 5));
    sim.add_actor(Kind::Cytoplasm, Coord::new(6, 5));
    sim.add_actor(Kind::Membrane, Coord::new(7, 5));
    sim.add_actor(Kind::Calcium, Coord::new(8, 5));
    let rows = sim.view(0).organelles;
    let names: Vec<&str> = rows.iter().map(|r| r.name.as_str()).collect();
    assert_eq!(names, vec!["Nucleus", "Membrane"]);
    assert!(rows.iter().all(|r| r.nucleus_hint.is_none()), "one nucleus needs no hint");
}

#[test]
fn the_sidebar_marks_where_the_nucleus_cycle_goes() {
    let mut sim = Sim::sandbox(6);
    let first = sim.add_actor(Kind::Nucleus, Coord::new(5, 5));
    sim.add_actor(Kind::Nucleus, Coord::new(7, 5));
    sim.add_actor(Kind::Nucleus, Coord::new(9, 5));
    sim.set_active_nucleus(first);
    let hints: Vec<Option<char>> = sim.view(0).organelles.iter().map(|r| r.nucleus_hint).collect();
    assert_eq!(hints, vec![Some('@'), Some('D'), Some('A')]);
}

#[test]
fn the_examine_cursor_blinks_and_describes_your_nucleus() {
    let mut sim = Sim::sandbox(7);
    let nucleus = sim.add_actor(Kind::Nucleus, Coord::new(5, 5));
    sim.set_active_nucleus(nucleus);
    sim.update_player_fov();
    let mut sim = sim;
    let view = sim.view(0);
    assert!(view.examine.is_none());
    sim.paint(Coord::new(5, 5), nucleus);
    let lit = sim.view(0).cell(5, 5).unwrap();
    assert_eq!(lit.glyph, 'X', "a reticle in sight blinks over what it covers");
    let dark = sim.view(BLINK_SPEED).cell(5, 5).unwrap();
    assert_eq!(dark.glyph, Kind::Nucleus.stats().glyph);
}

#[test]
fn status_reports_mass_gates_and_the_active_nucleus() {
    let mut sim = Sim::sandbox(8);
    let nucleus = sim.add_actor(Kind::Nucleus, Coord::new(5, 5));
    sim.add_actor(Kind::Cytoplasm, Coord::new(6, 5));
    sim.set_active_nucleus(nucleus);
    let status = sim.view(0).status;
    assert_eq!(status.mass, 2);
    assert_eq!(status.cities_remaining, 0);
    assert_eq!(status.cities_required, 8);
    assert_eq!(status.city_armor, 20);
    assert_eq!(status.active_nucleus, Some(("Nucleus".to_string(), Coord::new(5, 5))));
}
