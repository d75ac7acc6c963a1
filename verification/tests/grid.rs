use amoeba_rl::sim::grid::{rand_inclusive, rand_index, Coord, Dir, Grid};
use fastrand::Rng;

fn open_grid(w: i32, h: i32) -> Grid {
    let mut g = Grid::new(w, h);
    for y in 0..h {
        for x in 0..w {
            g.set_props(Coord::new(x, y), true, true, false);
        }
    }
    g
}

fn lit_cells(g: &Grid) -> usize {
    let mut n = 0;
    for y in 0..g.height() {
        for x in 0..g.width() {
            if g.in_fov(Coord::new(x, y)) {
                n += 1;
            }
        }
    }
    n
}

#[test]
fn rand_inclusive_covers_both_ends() {
    let mut rng = Rng::with_seed(7);
    let mut low = false;
    let mut high = false;
    for _ in 0..500 {
        let v = rand_inclusive(&mut rng, 3, 5);
        assert!((3..=5).contains(&v));
        low |= v == 3;
        high |= v == 5;
    }
    assert!(low && high, "both ends must be reachable");
}

#[test]
fn rand_inclusive_collapses_empty_range() {
    let mut rng = Rng::with_seed(1);
    assert_eq!(rand_inclusive(&mut rng, 4, 4), 4);
    assert_eq!(rand_inclusive(&mut rng, 0, -1), 0);
    assert_eq!(rand_index(&mut rng, 0), None);
    assert_eq!(rand_index(&mut rng, 1), Some(0));
}

#[test]
fn fov_is_a_diamond() {
    let mut g = open_grid(21, 21);
    let origin = Coord::new(10, 10);
    g.clear_fov();
    g.append_fov(origin, 4, true);
    for y in 0..21 {
        for x in 0..21 {
            let c = Coord::new(x, y);
            assert_eq!(
                g.in_fov(c),
                c.taxi(origin) <= 4,
                "cell {c:?} at taxi {}",
                c.taxi(origin)
            );
        }
    }
}

#[test]
fn fov_radius_zero_lights_only_the_source() {
    let mut g = open_grid(9, 9);
    let origin = Coord::new(4, 4);
    g.clear_fov();
    g.append_fov(origin, 0, true);
    assert!(g.in_fov(origin));
    assert_eq!(lit_cells(&g), 1);
}

#[test]
fn walls_occlude_and_are_themselves_lit() {
    let mut g = open_grid(21, 21);
    for y in 0..21 {
        g.set_props(Coord::new(12, y), false, false, false);
    }
    let origin = Coord::new(10, 10);
    g.clear_fov();
    g.append_fov(origin, 6, true);
    assert!(g.in_fov(Coord::new(12, 10)));
    assert!(!g.in_fov(Coord::new(13, 10)));
    assert!(!g.in_fov(Coord::new(14, 10)));
    assert!(g.in_fov(Coord::new(11, 10)));
}

#[test]
fn light_walls_off_hides_the_blocking_cell() {
    let mut g = open_grid(21, 21);
    for y in 0..21 {
        g.set_props(Coord::new(12, y), false, false, false);
    }
    let origin = Coord::new(10, 10);
    g.clear_fov();
    g.append_fov(origin, 6, false);
    assert!(!g.in_fov(Coord::new(12, 10)));
    assert!(g.in_fov(Coord::new(11, 10)));
}

#[test]
fn fov_appends_rather_than_replaces() {
    let mut g = open_grid(21, 21);
    g.clear_fov();
    g.append_fov(Coord::new(3, 3), 1, true);
    g.append_fov(Coord::new(17, 17), 1, true);
    assert!(g.in_fov(Coord::new(3, 3)));
    assert!(g.in_fov(Coord::new(17, 17)));
    assert!(!g.in_fov(Coord::new(10, 10)));
}

#[test]
fn diamond_iterator_matches_taxi_distance() {
    let g = open_grid(11, 11);
    let center = Coord::new(5, 5);
    let cells: Vec<_> = g.cells_in_diamond(center, 2);
    assert_eq!(cells.len(), 13);
    assert!(cells.iter().all(|c| c.taxi(center) <= 2));
}

#[test]
fn diamond_iterator_clips_to_the_map() {
    let g = open_grid(5, 5);
    let cells: Vec<_> = g.cells_in_diamond(Coord::new(0, 0), 2);
    assert!(cells.iter().all(|c| g.in_bounds(*c)));
    assert_eq!(cells.len(), 6);
}

#[test]
fn adjacency_order_is_left_right_up_down() {
    let g = open_grid(5, 5);
    let got: Vec<_> = g.adjacent(Coord::new(2, 2));
    assert_eq!(
        got,
        vec![
            Coord::new(1, 2),
            Coord::new(3, 2),
            Coord::new(2, 1),
            Coord::new(2, 3),
        ]
    );
}

#[test]
fn shortest_path_routes_around_a_wall() {
    let mut g = open_grid(9, 9);
    for y in 0..8 {
        g.set_props(Coord::new(4, y), false, false, false);
    }
    let path = g
        .shortest_path(Coord::new(1, 1), Coord::new(7, 1))
        .expect("a way around the wall exists");
    assert_eq!(path[0], Coord::new(1, 1));
    assert_eq!(*path.last().unwrap(), Coord::new(7, 1));
    assert!(path.windows(2).all(|w| w[0].adjacent_to(w[1])));
    assert_eq!(path.len(), 21);
}

#[test]
fn shortest_path_reports_impossible_routes() {
    let mut g = open_grid(9, 9);
    for y in 0..9 {
        g.set_props(Coord::new(4, y), false, false, false);
    }
    assert!(g
        .shortest_path(Coord::new(1, 1), Coord::new(7, 1))
        .is_none());
}

#[test]
fn out_of_bounds_reads_as_rock() {
    let g = open_grid(4, 4);
    let outside = Coord::new(-1, 2);
    assert!(!g.walkable(outside));
    assert!(!g.transparent(outside));
    assert!(!g.explored(outside));
}

// -- more cases --------------------------------------------------------------

#[test]
fn taxi_distance_is_the_sum_of_the_axes() {
    assert_eq!(Coord::new(1, 2).taxi(Coord::new(4, -2)), 7);
    assert!(Coord::new(3, 3).adjacent_to(Coord::new(3, 4)));
    assert!(!Coord::new(3, 3).adjacent_to(Coord::new(4, 4)));
    assert!(!Coord::new(3, 3).adjacent_to(Coord::new(3, 3)));
}

#[test]
fn directions_step_one_cell() {
    assert_eq!(Dir::Left.offset(), Coord::new(-1, 0));
    assert_eq!(Dir::Right.offset(), Coord::new(1, 0));
    assert_eq!(Dir::Up.offset(), Coord::new(0, -1));
    assert_eq!(Dir::Down.offset(), Coord::new(0, 1));
}

#[test]
fn a_path_to_where_you_stand_is_one_cell_long() {
    let g = open_grid(5, 5);
    assert_eq!(
        g.shortest_path(Coord::new(2, 2), Coord::new(2, 2)),
        Some(vec![Coord::new(2, 2)])
    );
    assert_eq!(g.shortest_path(Coord::new(2, 2), Coord::new(9, 9)), None);
}

#[test]
fn a_straight_line_visits_every_cell_between() {
    let cells = Grid::cells_along_line(Coord::new(0, 0), Coord::new(4, 2));
    assert_eq!(cells.first(), Some(&Coord::new(0, 0)));
    assert_eq!(cells.last(), Some(&Coord::new(4, 2)));
    assert_eq!(cells.len(), 5);
    let g = open_grid(9, 9);
    assert!(g.line_of_sight(Coord::new(0, 0), Coord::new(8, 3)));
}

#[test]
fn a_wall_blocks_line_of_sight() {
    let mut g = open_grid(9, 9);
    for y in 0..9 {
        g.set_props(Coord::new(4, y), false, false, false);
    }
    assert!(!g.line_of_sight(Coord::new(1, 4), Coord::new(7, 4)));
}

#[test]
fn walkable_neighbours_skip_rock() {
    let mut g = open_grid(5, 5);
    g.set_walkable(Coord::new(1, 2), false);
    assert_eq!(
        g.adjacent_walkable(Coord::new(2, 2)),
        vec![Coord::new(3, 2), Coord::new(2, 1), Coord::new(2, 3)]
    );
    assert_eq!(g.adjacent(Coord::new(0, 0)), vec![Coord::new(1, 0), Coord::new(0, 1)]);
}

#[test]
fn explored_flags_stick() {
    let mut g = open_grid(4, 4);
    assert!(!g.explored(Coord::new(1, 1)));
    g.set_explored(Coord::new(1, 1), true);
    assert!(g.explored(Coord::new(1, 1)));
    assert!(g.cell(Coord::new(1, 1)).explored);
    assert!(!g.cell(Coord::new(-3, 1)).walkable);
}
