//! Map generation.
//!
//! The cavern is a warren, and one rule decides its whole character: **no cell
//! of it is more than a step from rock.** [`plant_pillars`] enforces that by
//! putting rock back into anything that came out wide open, and everything
//! else here is in service of it: engulfing, cover and chokepoints all need a
//! wall to work against, and interesting walls have to be on the traffic.
//!
//! The order of work is: scatter chamber sites on a jittered lattice, eat a
//! small chamber out of each, join them with passages of wandering width,
//! erode alcoves and tendrils off whatever exists, tunnel between anything
//! still cut off, plant pillars in whatever is still open, then sink the
//! gates into the rock at the end of dead-end passages.
//!
//! Everything on the floor is then placed against one number: how far each
//! cell is from the nearest gate doorway. Barbed wire rings the gates,
//! nutrients lie in caches out along the passages, plants grow in the deep,
//! DNA hides in the dead ends of the deep, and the amoeba wakes up in the
//! chamber the humans have the furthest to walk to.
//!
//! Everything that cuts rock goes through [`carve`], which never touches the
//! map's outer ring; everything that puts rock back is a pillar on open floor.
//! Those two facts are what the contracts below carry from step to step.

use fastrand::Rng;
use vstd::prelude::*;

use super::actors::{is_city, ActorId, ActorStore, ItemKind, ItemStore, Kind};
use super::grid::{dir_offset, iabs, imax, imin, rand_inclusive, rand_index, taxi_spec, Cell, Coord, Dir, Grid};
use super::{occupancy_agrees, rules_of, Difficulty, Phase, Sim, UiMode};

verus! {

/// Roughly how far apart the warren's chambers sit.
pub const SITE_SPACING: i32 = 8;
/// How far a chamber may be jittered off the lattice, so the warren is not a
/// grid wearing a disguise.
pub const SITE_JITTER: i32 = 2;
/// Fewest cells one chamber is eaten out to, before erosion. Small on
/// purpose: a chamber is a widening of the warren, not a room.
pub const CHAMBER_MIN: i32 = 12;
/// Most cells one chamber is eaten out to.
pub const CHAMBER_MAX: i32 = 26;
/// Growth attempts one chamber may waste before it is called finished.
pub const CHAMBER_ATTEMPTS: i32 = 200;
/// Sites a map needs before it is worth playing.
pub const SITES_MIN: usize = 6;
/// Passages carved beyond the spanning tree, so the warren holds loops.
pub const PASSAGE_LOOPS: usize = 3;
/// Chance in a hundred that a passage cell gets its second lane.
pub const PASSAGE_WIDE_PERCENT: i32 = 66;
/// Erosion passes over the whole map.
pub const EROSION_ROUNDS: u32 = 2;
/// Chance in a hundred that an eligible rock cell is eaten in one pass.
pub const EROSION_PERCENT: i32 = 22;
/// Floor neighbours a rock cell must have to be eroded: exactly one, so every
/// cell erosion takes is a blind alcove hung off something that already
/// exists.
pub const EROSION_NEIGHBOURS: usize = 1;
/// Shortest gatehouse passage, in cells of rock cut away.
pub const GATEHOUSE_MIN: i32 = 2;
/// Longest gatehouse passage.
pub const GATEHOUSE_MAX: i32 = 4;
/// How many shares of the map's short side gates are asked to keep from
/// each other; see [`gate_gap_share`].
pub const GATE_GAP_TRIES: usize = 4;
/// Passes of pillar planting before the loop gives up. A backstop only: the
/// first pass already leaves nothing wide open.
pub const PILLAR_ROUNDS: u32 = 32;

// -- what carving does to a map ---------------------------------------------

/// Whether `c` lies strictly inside the map's outer ring.
pub open spec fn interior(g: Grid, c: Coord) -> bool {
    0 < c.x < g.spec_width() - 1 && 0 < c.y < g.spec_height() - 1
}

/// A cell cut out of the rock: open, clear, not yet seen, lit as it was.
pub open spec fn dug(cell: Cell) -> Cell {
    Cell { walkable: true, transparent: true, explored: false, in_fov: cell.in_fov }
}

/// A pillar planted on a cell: solid, opaque, not yet seen, lit as it was.
pub open spec fn pillar(cell: Cell) -> Cell {
    Cell { walkable: false, transparent: false, explored: false, in_fov: cell.in_fov }
}

/// `b` is `a` with some interior cells cut out of the rock, and nothing
/// else changed.
pub open spec fn carved_from(a: Grid, b: Grid) -> bool {
    &&& b.wf()
    &&& b.spec_width() == a.spec_width()
    &&& b.spec_height() == a.spec_height()
    &&& forall|c: Coord|
        #![trigger b.spec_cell(c)]
        b.spec_cell(c) == a.spec_cell(c) || (interior(a, c) && b.spec_cell(c) == dug(a.spec_cell(c)))
}

/// `b` is `a` with pillars planted on some interior cells that were open,
/// and nothing else changed.
pub open spec fn pillared_from(a: Grid, b: Grid) -> bool {
    &&& b.wf()
    &&& b.spec_width() == a.spec_width()
    &&& b.spec_height() == a.spec_height()
    &&& forall|c: Coord|
        #![trigger b.spec_cell(c)]
        b.spec_cell(c) == a.spec_cell(c) || (interior(a, c) && a.spec_cell(c).walkable && b.spec_cell(c)
            == pillar(a.spec_cell(c)))
}

/// Carving twice is carving.
pub proof fn lemma_carved_trans(a: Grid, b: Grid, c: Grid)
    requires
        carved_from(a, b),
        carved_from(b, c),
    ensures
        carved_from(a, c),
{
    assert forall|d: Coord| #![trigger c.spec_cell(d)]
        c.spec_cell(d) == a.spec_cell(d) || (interior(a, d) && c.spec_cell(d) == dug(a.spec_cell(d))) by {
        assert(b.spec_cell(d) == a.spec_cell(d) || (interior(a, d) && b.spec_cell(d) == dug(a.spec_cell(d))));
    }
}

/// A sound map is carved from itself.
pub proof fn lemma_carved_refl(a: Grid)
    requires
        a.wf(),
    ensures
        carved_from(a, a),
{
}

/// Planting twice is planting.
pub proof fn lemma_pillared_trans(a: Grid, b: Grid, c: Grid)
    requires
        pillared_from(a, b),
        pillared_from(b, c),
    ensures
        pillared_from(a, c),
{
    assert forall|d: Coord| #![trigger c.spec_cell(d)]
        c.spec_cell(d) == a.spec_cell(d) || (interior(a, d) && a.spec_cell(d).walkable && c.spec_cell(d)
            == pillar(a.spec_cell(d))) by {
        assert(b.spec_cell(d) == a.spec_cell(d) || (interior(a, d) && a.spec_cell(d).walkable && b.spec_cell(d)
            == pillar(a.spec_cell(d))));
    }
}

/// Turn one cell to floor, unless it is part of the map's outer ring.
///
/// Everything that cuts rock goes through here, which is the whole of why
/// the border stays solid without anybody having to remember it.
pub fn carve(grid: &mut Grid, c: Coord) -> (inside: bool)
    requires
        old(grid).wf(),
    ensures
        inside == interior(*old(grid), c),
        carved_from(*old(grid), *final(grid)),
        inside ==> final(grid).spec_cell(c) == dug(old(grid).spec_cell(c)),
        inside ==> old(grid).same_but(&*final(grid), c),
        !inside ==> *final(grid) == *old(grid),
{
    let inside = c.x > 0 && c.y > 0 && c.x < grid.width() - 1 && c.y < grid.height() - 1;
    if inside {
        grid.set_props(c, true, true, false);
    }
    inside
}

// -- the connectivity backstop ------------------------------------------

/// Whether `c` lies on the L-shaped corridor [`elbow_tunnel`] cuts from
/// `from` to `to`: along `from`'s row, then down `to`'s column.
pub open spec fn on_elbow(from: Coord, to: Coord, c: Coord) -> bool {
    ||| (c.y == from.y && imin(from.x as int, to.x as int) <= c.x <= imax(from.x as int, to.x as int))
    ||| (c.x == to.x && imin(from.y as int, to.y as int) <= c.y <= imax(from.y as int, to.y as int))
}

/// Carve an L-shaped corridor from `from` to `to`: the first leg along
/// `from`'s row, the second down `to`'s column, so that it arrives where it
/// was meant to.
pub fn elbow_tunnel(grid: &mut Grid, from: Coord, to: Coord)
    requires
        old(grid).wf(),
    ensures
        carved_from(*old(grid), *final(grid)),
        forall|c: Coord|
            on_elbow(from, to, c) && interior(*old(grid), c) ==> #[trigger] final(grid).spec_cell(c).walkable,
{
    let ghost g0 = *grid;
    let x0 = if from.x < to.x { from.x } else { to.x };
    let x1 = if from.x < to.x { to.x } else { from.x };
    let mut x: i64 = x0 as i64;
    while x <= x1 as i64
        invariant
            g0.wf(),
            carved_from(g0, *grid),
            x0 == imin(from.x as int, to.x as int),
            x1 == imax(from.x as int, to.x as int),
            x0 <= x <= x1 as int + 1,
            forall|c: Coord|
                c.y == from.y && x0 <= c.x < x && interior(g0, c) ==> #[trigger] grid.spec_cell(c).walkable,
        decreases x1 as int + 1 - x,
    {
        let ghost before = *grid;
        let c = Coord::new(x as i32, from.y);
        carve(grid, c);
        proof {
            lemma_carved_trans(g0, before, *grid);
            assert forall|d: Coord| d.y == from.y && x0 <= d.x < x + 1 && interior(g0, d) implies #[trigger] grid.spec_cell(
                d,
            ).walkable by {
                if d != c {
                    assert(before.spec_cell(d).walkable);
                    assert(grid.spec_cell(d) == before.spec_cell(d) || grid.spec_cell(d) == dug(before.spec_cell(d)));
                }
            }
        }
        x = x + 1;
    }
    let ghost g1 = *grid;
    let y0 = if from.y < to.y { from.y } else { to.y };
    let y1 = if from.y < to.y { to.y } else { from.y };
    let mut y: i64 = y0 as i64;
    while y <= y1 as i64
        invariant
            g0.wf(),
            carved_from(g0, g1),
            carved_from(g1, *grid),
            y0 == imin(from.y as int, to.y as int),
            y1 == imax(from.y as int, to.y as int),
            y0 <= y <= y1 as int + 1,
            forall|c: Coord|
                c.y == from.y && x0 <= c.x <= x1 && interior(g0, c) ==> #[trigger] g1.spec_cell(c).walkable,
            forall|c: Coord|
                c.x == to.x && y0 <= c.y < y && interior(g0, c) ==> #[trigger] grid.spec_cell(c).walkable,
        decreases y1 as int + 1 - y,
    {
        let ghost before = *grid;
        let c = Coord::new(to.x, y as i32);
        carve(grid, c);
        proof {
            lemma_carved_trans(g1, before, *grid);
            assert forall|d: Coord| d.x == to.x && y0 <= d.y < y + 1 && interior(g0, d) implies #[trigger] grid.spec_cell(
                d,
            ).walkable by {
                if d != c {
                    assert(before.spec_cell(d).walkable);
                    assert(grid.spec_cell(d) == before.spec_cell(d) || grid.spec_cell(d) == dug(before.spec_cell(d)));
                }
            }
        }
        y = y + 1;
    }
    proof {
        lemma_carved_trans(g0, g1, *grid);
        assert forall|c: Coord| on_elbow(from, to, c) && interior(g0, c) implies #[trigger] grid.spec_cell(c).walkable by {
            if c.y == from.y && x0 <= c.x <= x1 {
                assert(g1.spec_cell(c).walkable);
                assert(grid.spec_cell(c) == g1.spec_cell(c) || grid.spec_cell(c) == dug(g1.spec_cell(c)));
            }
        }
    }
}


/// The shortest way to join two disjoint regions.
#[derive(Clone, Copy, PartialEq, Eq, Structural, Debug)]
pub struct Bridge {
    /// The end in the first region.
    pub from: Coord,
    /// The end in the second region.
    pub to: Coord,
    /// Taxicab length.
    pub dist: i32,
}

/// Whether the pair `(i2, j2)` comes before `(i, j)`, first index first.
pub open spec fn pair_before(i2: int, j2: int, i: int, j: int) -> bool {
    i2 < i || (i2 == i && j2 < j)
}

/// `b` joins `from[i]` to `to[j]`, no pair is closer, and every pair as
/// close comes later in the search order.
pub open spec fn best_at(from: Seq<Coord>, to: Seq<Coord>, b: Bridge, i: int, j: int) -> bool {
    &&& 0 <= i < from.len()
    &&& 0 <= j < to.len()
    &&& b.from == from[i]
    &&& b.to == to[j]
    &&& b.dist == taxi_spec(from[i], to[j])
    &&& forall|i2: int, j2: int|
        0 <= i2 < from.len() && 0 <= j2 < to.len() ==> #[trigger] taxi_spec(from[i2], to[j2]) >= b.dist
    &&& forall|i2: int, j2: int|
        0 <= i2 < from.len() && 0 <= j2 < to.len() && pair_before(i2, j2, i, j) ==> #[trigger] taxi_spec(
            from[i2],
            to[j2],
        ) > b.dist
}

/// The closest pair of cells between two regions, by taxicab distance;
/// among equally close pairs, the first found walking `from` then `to`.
pub fn best_bridge(from: &Vec<Coord>, to: &Vec<Coord>) -> (r: Option<Bridge>)
    requires
        forall|k: int, m: int|
            0 <= k < from@.len() && 0 <= m < to@.len() ==> #[trigger] taxi_spec(from@[k], to@[m]) <= i32::MAX,
    ensures
        r is None <==> (from@.len() == 0 || to@.len() == 0),
        r matches Some(b) ==> exists|i: int, j: int| best_at(from@, to@, b, i, j),
{
    let mut best: Option<Bridge> = None;
    let ghost mut bi: int = 0;
    let ghost mut bj: int = 0;
    let mut i: usize = 0;
    while i < from.len()
        invariant
            forall|k: int, m: int|
                0 <= k < from@.len() && 0 <= m < to@.len() ==> #[trigger] taxi_spec(from@[k], to@[m]) <= i32::MAX,
            i <= from@.len(),
            best is None <==> (i == 0 || to@.len() == 0),
            best matches Some(b) ==> {
                &&& 0 <= bi < i
                &&& 0 <= bj < to@.len()
                &&& b.from == from@[bi]
                &&& b.to == to@[bj]
                &&& b.dist == taxi_spec(from@[bi], to@[bj])
                &&& forall|i2: int, j2: int|
                    0 <= i2 < i && 0 <= j2 < to@.len() ==> #[trigger] taxi_spec(from@[i2], to@[j2]) >= b.dist
                &&& forall|i2: int, j2: int|
                    0 <= i2 < i && 0 <= j2 < to@.len() && pair_before(i2, j2, bi, bj) ==> #[trigger] taxi_spec(
                        from@[i2],
                        to@[j2],
                    ) > b.dist
            },
        decreases from@.len() - i,
    {
        let mut j: usize = 0;
        while j < to.len()
            invariant
                forall|k: int, m: int|
                    0 <= k < from@.len() && 0 <= m < to@.len() ==> #[trigger] taxi_spec(from@[k], to@[m]) <= i32::MAX,
                i < from@.len(),
                j <= to@.len(),
                best is None <==> ((i == 0 && j == 0) || to@.len() == 0),
                best matches Some(b) ==> {
                    &&& (0 <= bi < i || (bi == i && bj < j))
                    &&& 0 <= bi
                    &&& 0 <= bj < to@.len()
                    &&& b.from == from@[bi]
                    &&& b.to == to@[bj]
                    &&& b.dist == taxi_spec(from@[bi], to@[bj])
                    &&& forall|i2: int, j2: int|
                        ((0 <= i2 < i && 0 <= j2 < to@.len()) || (i2 == i && 0 <= j2 < j)) ==> #[trigger] taxi_spec(
                            from@[i2],
                            to@[j2],
                        ) >= b.dist
                    &&& forall|i2: int, j2: int|
                        ((0 <= i2 < i && 0 <= j2 < to@.len()) || (i2 == i && 0 <= j2 < j)) && pair_before(
                            i2,
                            j2,
                            bi,
                            bj,
                        ) ==> #[trigger] taxi_spec(from@[i2], to@[j2]) > b.dist
                },
            decreases to@.len() - j,
        {
            let f = from[i];
            let t = to[j];
            assert(taxi_spec(from@[i as int], to@[j as int]) <= i32::MAX);
            let dist = f.taxi(t);
            let better = match best {
                None => true,
                Some(b) => dist < b.dist,
            };
            if better {
                best = Some(Bridge { from: f, to: t, dist });
                proof {
                    bi = i as int;
                    bj = j as int;
                }
            }
            j = j + 1;
        }
        i = i + 1;
    }
    proof {
        if let Some(b) = best {
            assert(best_at(from@, to@, b, bi, bj));
        }
    }
    best
}

/// Whichever of two bridges is shorter, the first on a tie, tolerating
/// either being absent.
pub open spec fn shorter_spec(a: Option<Bridge>, b: Option<Bridge>) -> Option<Bridge> {
    match (a, b) {
        (Some(x), Some(y)) => if x.dist <= y.dist {
            Some(x)
        } else {
            Some(y)
        },
        (Some(x), None) => Some(x),
        (None, y) => y,
    }
}

/// The executable form of [`shorter_spec`].
pub fn shorter(a: Option<Bridge>, b: Option<Bridge>) -> (r: Option<Bridge>)
    ensures
        r == shorter_spec(a, b),
{
    match (a, b) {
        (Some(x), Some(y)) => if x.dist <= y.dist {
            Some(x)
        } else {
            Some(y)
        },
        (Some(x), None) => Some(x),
        (None, y) => y,
    }
}

/// Whether a cell of a pocket has rock on one of its four sides.
pub open spec fn touches_rock(g: Grid, c: Coord) -> bool {
    ||| !g.spec_cell(Coord { x: (c.x - 1) as i32, y: c.y }).walkable
    ||| !g.spec_cell(Coord { x: (c.x + 1) as i32, y: c.y }).walkable
    ||| !g.spec_cell(Coord { x: c.x, y: (c.y - 1) as i32 }).walkable
    ||| !g.spec_cell(Coord { x: c.x, y: (c.y + 1) as i32 }).walkable
}

/// The cells of a pocket that touch rock, in the pocket's order.
///
/// The closest pair between two disjoint regions always includes a cell
/// that touches rock, so searching the perimeter finds the same distance as
/// searching everything.
pub fn border_cells(grid: &Grid, pocket: &Vec<Coord>) -> (r: Vec<Coord>)
    requires
        grid.wf(),
        forall|k: int| 0 <= k < pocket@.len() ==> grid.spec_in_bounds(#[trigger] pocket@[k]),
    ensures
        r@ == pocket@.filter(|c: Coord| touches_rock(*grid, c)),
        forall|k: int| 0 <= k < r@.len() ==> grid.spec_in_bounds(#[trigger] r@[k]),
{
    let mut out: Vec<Coord> = Vec::new();
    let mut k: usize = 0;
    while k < pocket.len()
        invariant
            grid.wf(),
            forall|m: int| 0 <= m < pocket@.len() ==> grid.spec_in_bounds(#[trigger] pocket@[m]),
            k <= pocket@.len(),
            out@ == pocket@.take(k as int).filter(|c: Coord| touches_rock(*grid, c)),
            forall|m: int| 0 <= m < out@.len() ==> grid.spec_in_bounds(#[trigger] out@[m]),
        decreases pocket@.len() - k,
    {
        let c = pocket[k];
        proof {
            assert(grid.spec_in_bounds(pocket@[k as int]));
            grid.lemma_wf();
        }
        let keep = !grid.walkable(Coord::new(c.x - 1, c.y)) || !grid.walkable(Coord::new(c.x + 1, c.y))
            || !grid.walkable(Coord::new(c.x, c.y - 1)) || !grid.walkable(Coord::new(c.x, c.y + 1));
        proof {
            let pred = |x: Coord| touches_rock(*grid, x);
            assert(pocket@.take(k + 1) == pocket@.take(k as int).push(c));
            pocket@.take(k as int).lemma_filter_push(c, pred);
        }
        if keep {
            out.push(c);
        }
        k = k + 1;
    }
    proof {
        assert(pocket@.take(k as int) == pocket@);
    }
    out
}


// -- pillars ---------------------------------------------------------------

/// Whether the cell `dx, dy` away from `at` is open floor.
pub open spec fn open_near(g: Grid, at: Coord, dx: int, dy: int) -> bool {
    g.spec_cell(Coord { x: (at.x + dx) as i32, y: (at.y + dy) as i32 }).walkable
}

/// Whether this cell and every one of its eight neighbours is open floor:
/// the middle of a hall.
pub open spec fn wide_open_spec(g: Grid, at: Coord) -> bool {
    &&& open_near(g, at, -1, -1)
    &&& open_near(g, at, 0, -1)
    &&& open_near(g, at, 1, -1)
    &&& open_near(g, at, -1, 0)
    &&& open_near(g, at, 0, 0)
    &&& open_near(g, at, 1, 0)
    &&& open_near(g, at, -1, 1)
    &&& open_near(g, at, 0, 1)
    &&& open_near(g, at, 1, 1)
}

/// No interior cell is the middle of a hall.
pub open spec fn no_halls(g: Grid) -> bool {
    forall|c: Coord| interior(g, c) ==> !#[trigger] wide_open_spec(g, c)
}

/// Planting only closes cells, so a hall after planting was a hall before.
pub proof fn lemma_pillars_only_close(a: Grid, b: Grid, c: Coord)
    requires
        pillared_from(a, b),
        wide_open_spec(b, c),
    ensures
        wide_open_spec(a, c),
{
    assert forall|dx: int, dy: int| #![trigger open_near(a, c, dx, dy)] open_near(b, c, dx, dy) implies open_near(a, c, dx, dy) by {
        let d = Coord { x: (c.x + dx) as i32, y: (c.y + dy) as i32 };
        assert(b.spec_cell(d) == a.spec_cell(d) || b.spec_cell(d) == pillar(a.spec_cell(d)));
    }
    assert(open_near(b, c, -1, -1) && open_near(b, c, 0, -1) && open_near(b, c, 1, -1));
    assert(open_near(b, c, -1, 0) && open_near(b, c, 0, 0) && open_near(b, c, 1, 0));
    assert(open_near(b, c, -1, 1) && open_near(b, c, 0, 1) && open_near(b, c, 1, 1));
}

/// The executable form of [`wide_open_spec`], for a cell inside the ring.
pub fn wide_open(grid: &Grid, at: Coord) -> (b: bool)
    requires
        grid.wf(),
        interior(*grid, at),
    ensures
        b == wide_open_spec(*grid, at),
{
    proof {
        grid.lemma_wf();
    }
    let up = grid.walkable(Coord::new(at.x - 1, at.y - 1)) && grid.walkable(Coord::new(at.x, at.y - 1))
        && grid.walkable(Coord::new(at.x + 1, at.y - 1));
    let level = grid.walkable(Coord::new(at.x - 1, at.y)) && grid.walkable(at) && grid.walkable(
        Coord::new(at.x + 1, at.y),
    );
    let down = grid.walkable(Coord::new(at.x - 1, at.y + 1)) && grid.walkable(Coord::new(at.x, at.y + 1))
        && grid.walkable(Coord::new(at.x + 1, at.y + 1));
    proof {
        assert(Coord { x: (at.x + 0) as i32, y: (at.y + 0) as i32 } == at);
    }
    up && level && down
}

/// Every interior cell that is the middle of a hall, in reading order.
fn halls(grid: &Grid) -> (r: Vec<Coord>)
    requires
        grid.wf(),
    ensures
        forall|k: int| 0 <= k < r@.len() ==> interior(*grid, #[trigger] r@[k]),
        forall|c: Coord| interior(*grid, c) && wide_open_spec(*grid, c) ==> #[trigger] r@.contains(c),
        r@.len() <= grid.spec_width() * grid.spec_height(),
{
    let mut out: Vec<Coord> = Vec::new();
    let w = grid.width();
    let h = grid.height();
    let mut y: i32 = 1;
    while y < h - 1
        invariant
            grid.wf(),
            w == grid.spec_width(),
            h == grid.spec_height(),
            0 <= w,
            0 <= h,
            1 <= y,
            h >= 1 ==> y <= h - 1 || y == 1,
            y <= h || y == 1,
            w * h <= i32::MAX,
            out@.len() <= (y - 1) * w,
            forall|k: int| 0 <= k < out@.len() ==> interior(*grid, #[trigger] out@[k]),
            forall|c: Coord| interior(*grid, c) && c.y < y && wide_open_spec(*grid, c) ==> #[trigger] out@.contains(c),
        decreases h - y,
    {
        let mut x: i32 = 1;
        while x < w - 1
            invariant
                grid.wf(),
                w == grid.spec_width(),
                h == grid.spec_height(),
                0 <= w,
                0 <= h,
                1 <= y < h - 1,
                1 <= x,
                w >= 1 ==> x <= w - 1 || x == 1,
                x <= w || x == 1,
                out@.len() <= (y - 1) * w + x - 1,
                forall|k: int| 0 <= k < out@.len() ==> interior(*grid, #[trigger] out@[k]),
                forall|c: Coord|
                    interior(*grid, c) && (c.y < y || (c.y == y && c.x < x)) && wide_open_spec(*grid, c)
                        ==> #[trigger] out@.contains(c),
            decreases w - x,
        {
            let at = Coord::new(x, y);
            if wide_open(grid, at) {
                let ghost prev = out@;
                out.push(at);
                proof {
                    assert forall|c: Coord|
                        interior(*grid, c) && (c.y < y || (c.y == y && c.x < x + 1)) && wide_open_spec(*grid, c)
                            implies #[trigger] out@.contains(c) by {
                        if c == at {
                            assert(out@[out@.len() - 1] == at);
                        } else {
                            assert(prev.contains(c));
                            let m = choose|m: int| 0 <= m < prev.len() && prev[m] == c;
                            assert(out@[m] == c);
                        }
                    }
                }
            }
            x = x + 1;
        }
        assert((y - 1) * w + w == y * w) by (nonlinear_arith);
        y = y + 1;
    }
    assert((y - 1) * w <= w * h) by (nonlinear_arith)
        requires
            0 <= w,
            0 <= h,
            1 <= y,
            y <= h || y == 1,
    ;
    out
}

/// Fisher-Yates through the run's own generator, so a shuffled list is as
/// reproducible as everything else.
pub fn shuffle<T: Copy>(rng: &mut Rng, items: &mut Vec<T>)
    requires
        old(items)@.len() <= i32::MAX,
    ensures
        final(items)@.len() == old(items)@.len(),
        final(items)@.to_multiset() == old(items)@.to_multiset(),
{
    let ghost orig = items@;
    let n = items.len();
    let mut i: usize = n;
    while i > 1
        invariant
            items@.len() == n,
            n <= i32::MAX,
            i <= n,
            items@.to_multiset() == orig.to_multiset(),
        decreases i,
    {
        i = i - 1;
        let j = rand_inclusive(rng, 0, i as i32) as usize;
        let a = items[i];
        let b = items[j];
        let ghost s0 = items@;
        items.set(i, b);
        let ghost s1 = items@;
        items.set(j, a);
        proof {
            vstd::seq_lib::to_multiset_update(s0, i as int, b);
            vstd::seq_lib::to_multiset_update(s1, j as int, a);
            s0.to_multiset_ensures();
            assert(s0.contains(a) && s0.contains(b)) by {
                assert(s0[i as int] == a && s0[j as int] == b);
            }
            assert(s1[j as int] == b);
            let m = s0.to_multiset();
            assert(m.insert(b).remove(a).insert(a).remove(b) =~= m);
        }
    }
}

/// Plant rock back into anything that came out wide open.
///
/// A cell with all eight of its neighbours open is the middle of a hall, and
/// a hall is where this game has nothing to offer: nothing can be cornered in
/// one, a shot crosses it unobstructed, and there is no cell in it that costs
/// fewer than four organelles to seal. So the middle of every hall becomes a
/// pillar, in shuffled order so the pillars do not stand in ranks, until no
/// such cell is left.
pub fn plant_pillars(grid: &mut Grid, rng: &mut Rng)
    requires
        old(grid).wf(),
    ensures
        pillared_from(*old(grid), *final(grid)),
        no_halls(*final(grid)),
{
    let ghost g0 = *grid;
    let mut round: u32 = 0;
    while round < PILLAR_ROUNDS
        invariant
            g0 == *old(grid),
            g0.wf(),
            pillared_from(g0, *grid),
            round > 0 ==> no_halls(*grid),
        decreases PILLAR_ROUNDS - round,
    {
        let mut open = halls(grid);
        if open.len() == 0 {
            proof {
                assert forall|c: Coord| interior(*grid, c) implies !#[trigger] wide_open_spec(*grid, c) by {
                    if wide_open_spec(*grid, c) {
                        assert(open@.contains(c));
                    }
                }
            }
            return ;
        }
        proof {
            open@.to_multiset_ensures();
        }
        let ghost before = open@;
        proof {
            grid.lemma_wf();
        }
        shuffle(rng, &mut open);
        proof {
            open@.to_multiset_ensures();
            before.to_multiset_ensures();
            assert forall|c: Coord| before.contains(c) implies open@.contains(c) by {
                assert(before.to_multiset().count(c) > 0);
            }
            assert forall|m: int| 0 <= m < open@.len() implies interior(*grid, #[trigger] open@[m]) by {
                assert(open@.contains(open@[m]));
                assert(open@.to_multiset().count(open@[m]) > 0);
                assert(before.contains(open@[m]));
                let q = choose|q: int| 0 <= q < before.len() && before[q] == open@[m];
            }
            assert forall|c: Coord| interior(*grid, c) && wide_open_spec(*grid, c) implies exists|m: int|
                0 <= m < open@.len() && #[trigger] open@[m] == c by {
                assert(before.contains(c));
                assert(open@.contains(c));
            }
        }
        let ghost gs = *grid;
        let mut k: usize = 0;
        while k < open.len()
            invariant
                g0.wf(),
                pillared_from(g0, gs),
                pillared_from(gs, *grid),
                k <= open@.len(),
                forall|m: int| 0 <= m < open@.len() ==> interior(gs, #[trigger] open@[m]),
                forall|c: Coord|
                    interior(*grid, c) && wide_open_spec(*grid, c) ==> exists|m: int|
                        k <= m < open@.len() && #[trigger] open@[m] == c,
            decreases open@.len() - k,
        {
            let at = open[k];
            let ghost pre = *grid;
            assert(interior(gs, open@[k as int]));
            if wide_open(grid, at) {
                grid.set_props(at, false, false, false);
                proof {
                    assert(pillared_from(pre, *grid)) by {
                        assert forall|d: Coord| #![trigger grid.spec_cell(d)]
                            grid.spec_cell(d) == pre.spec_cell(d) || (interior(pre, d) && pre.spec_cell(d).walkable
                                && grid.spec_cell(d) == pillar(pre.spec_cell(d))) by {
                            if d == at {
                                assert(open_near(pre, at, 0, 0));
                                assert(Coord { x: (at.x + 0) as i32, y: (at.y + 0) as i32 } == at);
                            }
                        }
                    }
                }
            } else {
                proof {
                    lemma_carved_refl(pre);
                }
            }
            proof {
                if *grid != pre {
                    lemma_pillared_trans(gs, pre, *grid);
                }
                assert forall|c: Coord| interior(*grid, c) && wide_open_spec(*grid, c) implies exists|m: int|
                    k + 1 <= m < open@.len() && #[trigger] open@[m] == c by {
                    if *grid != pre {
                        lemma_pillars_only_close(pre, *grid, c);
                        if c == at {
                            assert(open_near(*grid, at, 0, 0));
                            assert(Coord { x: (at.x + 0) as i32, y: (at.y + 0) as i32 } == at);
                            assert(false);
                        }
                    } else {
                        if c == at {
                            assert(false);
                        }
                    }
                    let m = choose|m: int| k <= m < open@.len() && #[trigger] open@[m] == c;
                    assert(m != k);
                }
            }
            k = k + 1;
        }
        proof {
            lemma_pillared_trans(g0, gs, *grid);
            assert forall|c: Coord| interior(*grid, c) implies !#[trigger] wide_open_spec(*grid, c) by {
                if wide_open_spec(*grid, c) {
                    let m = choose|m: int| k <= m < open@.len() && #[trigger] open@[m] == c;
                }
            }
        }
        round = round + 1;
    }
}

/// This cell if it is open, otherwise the first open cell beside it, or the
/// cell itself if none is.
pub open spec fn on_open_ground_spec(g: Grid, at: Coord) -> Coord {
    if g.spec_cell(at).walkable {
        at
    } else if g.adjacent_spec(at, true).len() > 0 {
        g.adjacent_spec(at, true)[0]
    } else {
        at
    }
}

/// The executable form of [`on_open_ground_spec`].
pub fn on_open_ground(grid: &Grid, at: Coord) -> (r: Coord)
    requires
        grid.wf(),
    ensures
        r == on_open_ground_spec(*grid, at),
{
    if grid.walkable(at) {
        return at;
    }
    let next = grid.adjacent_walkable(at);
    if next.len() > 0 {
        next[0]
    } else {
        at
    }
}


// -- the warren ------------------------------------------------------------

/// Room left for a lattice between two margins, at least one.
pub open spec fn lattice_usable(span: int, margin: int) -> int {
    imax(span - 1 - 2 * margin, 1)
}

/// How many lattice lines fit: one per [`SITE_SPACING`] and one more, and
/// never fewer than two.
pub open spec fn lattice_count(span: int, margin: int) -> int {
    imax(lattice_usable(span, margin) / (SITE_SPACING as int) + 1, 2)
}

/// The `i`th lattice line.
pub open spec fn lattice_at(span: int, margin: int, i: int) -> int {
    margin + lattice_usable(span, margin) * i / (lattice_count(span, margin) - 1)
}

/// Evenly spaced lattice coordinates from `margin` to `span - 1 - margin`.
///
/// The count comes from [`SITE_SPACING`] but the spacing comes from the
/// span, so the lattice always reaches both edges and the sites end up a
/// little closer together than asked for rather than leaving a strip over.
pub fn lattice(span: i32, margin: i32) -> (r: Vec<i32>)
    requires
        0 <= margin < span,
    ensures
        r@.len() == lattice_count(span as int, margin as int),
        forall|i: int| 0 <= i < r@.len() ==> #[trigger] r@[i] == lattice_at(span as int, margin as int, i),
        forall|i: int|
            0 <= i < r@.len() ==> margin <= #[trigger] r@[i] <= margin + lattice_usable(span as int, margin as int),
{
    let low = margin as i64;
    let raw = span as i64 - 1 - margin as i64 - low;
    let usable: i64 = if raw > 1 {
        raw
    } else {
        1
    };
    let c0 = usable / 8 + 1;
    let count: i64 = if c0 > 2 {
        c0
    } else {
        2
    };
    assert(usable == lattice_usable(span as int, margin as int));
    assert(count == lattice_count(span as int, margin as int));
    assert(margin + usable <= i32::MAX) by {
        if raw > 1 {
            assert(margin + usable == span - 1 - margin);
        }
    }
    let mut out: Vec<i32> = Vec::new();
    let mut i: i64 = 0;
    while i < count
        invariant
            0 <= margin < span,
            low == margin,
            margin + usable <= i32::MAX,
            usable == lattice_usable(span as int, margin as int),
            count == lattice_count(span as int, margin as int),
            1 <= usable <= i32::MAX,
            2 <= count <= usable / 8 + 2,
            0 <= i <= count,
            out@.len() == i,
            forall|k: int| 0 <= k < i ==> #[trigger] out@[k] == lattice_at(span as int, margin as int, k),
            forall|k: int|
                0 <= k < i ==> margin <= #[trigger] out@[k] <= margin + lattice_usable(span as int, margin as int),
        decreases count - i,
    {
        assert(usable * i <= usable * (count - 1)) by (nonlinear_arith)
            requires
                1 <= usable,
                0 <= i < count,
        ;
        assert(usable * (count - 1) <= 0x7fff_ffff * 0x7fff_ffff) by (nonlinear_arith)
            requires
                1 <= usable <= i32::MAX,
                2 <= count <= usable / 8 + 2,
        ;
        assert(0 <= usable * i) by (nonlinear_arith)
            requires
                1 <= usable,
                0 <= i,
        ;
        let v = low + usable * i / (count - 1);
        proof {
            vstd::arithmetic::div_mod::lemma_div_is_ordered(usable * i, usable * (count - 1), count - 1);
            vstd::arithmetic::div_mod::lemma_div_by_multiple(usable as int, count - 1);
            assert(usable * (count - 1) == (count - 1) * usable) by (nonlinear_arith);
            vstd::arithmetic::div_mod::lemma_div_pos_is_pos(usable * i, count - 1);
        }
        out.push(v as i32);
        i = i + 1;
    }
    out
}

/// How far from the map's edge a chamber site may sit.
pub open spec fn site_margin() -> int {
    SITE_JITTER + 2
}

/// Whether a site keeps its distance from the map's edge.
pub open spec fn site_ok(g: Grid, c: Coord) -> bool {
    site_margin() <= c.x <= g.spec_width() - 1 - site_margin() && site_margin() <= c.y <= g.spec_height() - 1
        - site_margin()
}

/// `v` pulled into `[low, high]`.
pub open spec fn clamp_spec(v: int, low: int, high: int) -> int {
    if v < low {
        low
    } else if v > high {
        high
    } else {
        v
    }
}

/// Whether `c` lies within [`SITE_JITTER`] of `(x, y)` on each axis.
pub open spec fn jittered_from(c: Coord, x: int, y: int) -> bool {
    x - SITE_JITTER <= c.x <= x + SITE_JITTER && y - SITE_JITTER <= c.y <= y + SITE_JITTER
}

/// Chamber sites: a lattice, jittered off true so the warren does not read
/// as a grid, row by row.
///
/// A lattice rather than a scatter because the spacing has to be reliable:
/// two chambers that land on top of each other make a hall, and a hall is
/// the thing this generator exists to not produce.
pub fn sites(grid: &Grid, rng: &mut Rng) -> (r: Vec<Coord>)
    requires
        grid.wf(),
        grid.spec_width() > 2 * site_margin() + 1,
        grid.spec_height() > 2 * site_margin() + 1,
    ensures
        forall|k: int| 0 <= k < r@.len() ==> site_ok(*grid, #[trigger] r@[k]),
        r@.len() <= grid.spec_width() * grid.spec_height(),
        r@.len() == lattice_count(grid.spec_width() as int, site_margin()) * lattice_count(
            grid.spec_height() as int,
            site_margin(),
        ),
        forall|k: int|
            0 <= k < r@.len() ==> jittered_from(
                #[trigger] r@[k],
                lattice_at(grid.spec_width() as int, site_margin(), k % lattice_count(grid.spec_width() as int, site_margin())),
                lattice_at(grid.spec_height() as int, site_margin(), k / lattice_count(grid.spec_width() as int, site_margin())),
            ),
{
    let margin = SITE_JITTER + 2;
    let w = grid.width();
    let h = grid.height();
    let across = lattice(w, margin);
    let down = lattice(h, margin);
    assert(lattice_usable(w as int, margin as int) == w - 1 - 2 * margin);
    assert(lattice_usable(h as int, margin as int) == h - 1 - 2 * margin);
    assert(across@.len() <= w) by {
        assert((w - 1 - 2 * margin) / 8 <= w - 1 - 2 * margin);
    }
    assert(down@.len() <= h) by {
        assert((h - 1 - 2 * margin) / 8 <= h - 1 - 2 * margin);
    }
    let mut out: Vec<Coord> = Vec::new();
    let mut yi: usize = 0;
    while yi < down.len()
        invariant
            grid.wf(),
            w == grid.spec_width(),
            h == grid.spec_height(),
            margin == site_margin(),
            w > 2 * margin + 1,
            h > 2 * margin + 1,
            w * h <= i32::MAX,
            forall|i: int| 0 <= i < across@.len() ==> margin <= #[trigger] across@[i] <= w - 1 - margin,
            forall|i: int| 0 <= i < down@.len() ==> margin <= #[trigger] down@[i] <= h - 1 - margin,
            across@.len() <= w,
            down@.len() <= h,
            yi <= down@.len(),
            out@.len() <= yi * w,
            forall|k: int| 0 <= k < out@.len() ==> site_ok(*grid, #[trigger] out@[k]),
            across@.len() == lattice_count(w as int, margin as int),
            down@.len() == lattice_count(h as int, margin as int),
            forall|i: int| 0 <= i < across@.len() ==> #[trigger] across@[i] == lattice_at(w as int, margin as int, i),
            forall|i: int| 0 <= i < down@.len() ==> #[trigger] down@[i] == lattice_at(h as int, margin as int, i),
            out@.len() == yi * across@.len(),
            forall|k: int|
                0 <= k < out@.len() ==> jittered_from(
                    #[trigger] out@[k],
                    lattice_at(w as int, margin as int, k % (across@.len() as int)),
                    lattice_at(h as int, margin as int, k / (across@.len() as int)),
                ),
        decreases down@.len() - yi,
    {
        let y = down[yi];
        let mut xi: usize = 0;
        while xi < across.len()
            invariant
                grid.wf(),
                w == grid.spec_width(),
                h == grid.spec_height(),
                margin == site_margin(),
                w > 2 * margin + 1,
                h > 2 * margin + 1,
                w * h <= i32::MAX,
                forall|i: int| 0 <= i < across@.len() ==> margin <= #[trigger] across@[i] <= w - 1 - margin,
                margin <= y <= h - 1 - margin,
                across@.len() <= w,
                xi <= across@.len(),
                yi < down@.len(),
                out@.len() <= yi * w + xi,
                forall|k: int| 0 <= k < out@.len() ==> site_ok(*grid, #[trigger] out@[k]),
                across@.len() == lattice_count(w as int, margin as int),
                forall|i: int| 0 <= i < across@.len() ==> #[trigger] across@[i] == lattice_at(w as int, margin as int, i),
                y == lattice_at(h as int, margin as int, yi as int),
                across@.len() >= 2,
                out@.len() == yi * across@.len() + xi,
                forall|k: int|
                    0 <= k < out@.len() ==> jittered_from(
                        #[trigger] out@[k],
                        lattice_at(w as int, margin as int, k % (across@.len() as int)),
                        lattice_at(h as int, margin as int, k / (across@.len() as int)),
                    ),
            decreases across@.len() - xi,
        {
            let x = across[xi];
            assert(margin <= across@[xi as int] <= w - 1 - margin);
            let jx = rand_inclusive(rng, -SITE_JITTER, SITE_JITTER);
            let jy = rand_inclusive(rng, -SITE_JITTER, SITE_JITTER);
            let ax = x + jx;
            let ay = y + jy;
            let cx = if ax < margin {
                margin
            } else if ax > w - 1 - margin {
                w - 1 - margin
            } else {
                ax
            };
            let cy = if ay < margin {
                margin
            } else if ay > h - 1 - margin {
                h - 1 - margin
            } else {
                ay
            };
            let ghost before = out@;
            let site = Coord::new(cx, cy);
            out.push(site);
            proof {
                let n = across@.len() as int;
                let k = before.len() as int;
                vstd::arithmetic::div_mod::lemma_fundamental_div_mod_converse(k, n, yi as int, xi as int);
                assert(out@[k] == site);
                assert forall|m: int|
                    0 <= m < out@.len() implies jittered_from(
                        #[trigger] out@[m],
                        lattice_at(w as int, margin as int, m % n),
                        lattice_at(h as int, margin as int, m / n),
                    ) by {
                    if m < k {
                        assert(out@[m] == before[m]);
                    }
                }
            }
            xi = xi + 1;
        }
        assert(yi * across@.len() + across@.len() == (yi + 1) * across@.len()) by (nonlinear_arith);
        assert(yi * w + w == (yi + 1) * w) by (nonlinear_arith);
        yi = yi + 1;
    }
    assert(yi * w <= w * h) by (nonlinear_arith)
        requires
            0 <= w,
            yi <= h,
    ;
    assert(yi * across@.len() == across@.len() * yi) by (nonlinear_arith);
    out
}

/// Whether `v` holds `c`.
fn holds(v: &Vec<Coord>, c: Coord) -> (b: bool)
    ensures
        b == v@.contains(c),
{
    let mut k: usize = 0;
    while k < v.len()
        invariant
            k <= v@.len(),
            forall|m: int| 0 <= m < k ==> v@[m] != c,
        decreases v@.len() - k,
    {
        if v[k] == c {
            assert(v@[k as int] == c);
            return true;
        }
        k = k + 1;
    }
    false
}

/// Eat a small chamber out of the rock around one site.
///
/// Growth is by accretion: pick a cell already eaten, eat one of its
/// neighbours. That gives a lumpy blob rather than the smooth disc a radius
/// would, and rather than the stringy worm a drunkard's walk would.
pub fn carve_chamber(grid: &mut Grid, rng: &mut Rng, site: Coord)
    requires
        old(grid).wf(),
        interior(*old(grid), site),
    ensures
        carved_from(*old(grid), *final(grid)),
        final(grid).spec_cell(site).walkable,
{
    let ghost g0 = *grid;
    let want = rand_inclusive(rng, CHAMBER_MIN, CHAMBER_MAX);
    let mut body: Vec<Coord> = Vec::new();
    body.push(site);
    carve(grid, site);
    let dirs = [Dir::Left, Dir::Right, Dir::Up, Dir::Down];
    let mut tries: i32 = 0;
    while tries < CHAMBER_ATTEMPTS
        invariant
            g0.wf(),
            carved_from(g0, *grid),
            interior(g0, site),
            grid.spec_cell(site).walkable,
            1 <= body@.len() <= 1 + tries,
            0 <= tries <= CHAMBER_ATTEMPTS,
            forall|k: int| 0 <= k < body@.len() ==> interior(g0, #[trigger] body@[k]),
        decreases CHAMBER_ATTEMPTS - tries,
    {
        tries = tries + 1;
        if body.len() as i32 >= want {
            break;
        }
        let index = match rand_index(rng, body.len()) {
            Some(i) => i,
            None => {
                break;
            },
        };
        let from = body[index];
        assert(interior(g0, body@[index as int]));
        let pick = match rand_index(rng, 4) {
            Some(i) => i,
            None => {
                break;
            },
        };
        let step = dirs[pick].offset();
        proof {
            g0.lemma_wf();
        }
        let next = Coord::new(from.x + step.x, from.y + step.y);
        if holds(&body, next) {
            continue;
        }
        let ghost before = *grid;
        let inside = carve(grid, next);
        proof {
            lemma_carved_trans(g0, before, *grid);
            assert(grid.spec_cell(site) == before.spec_cell(site) || grid.spec_cell(site) == dug(before.spec_cell(site)));
        }
        if !inside {
            continue;
        }
        body.push(next);
    }
}

/// Whether `c` lies on the straight leg from `from` to `to`.
pub open spec fn on_leg(from: Coord, to: Coord, c: Coord) -> bool {
    ||| (from.y == to.y && c.y == from.y && imin(from.x as int, to.x as int) <= c.x <= imax(from.x as int, to.x as int))
    ||| (from.x == to.x && c.x == from.x && imin(from.y as int, to.y as int) <= c.y <= imax(from.y as int, to.y as int))
}

/// One straight leg, wandering between one and two cells wide.
///
/// Every cell of the leg is cut; each one rolls for a second lane beside it.
/// Two cells everywhere is a road and one cell everywhere is a queue;
/// rolling per cell puts a throat every few cells.
pub fn carve_run(grid: &mut Grid, rng: &mut Rng, from: Coord, to: Coord)
    requires
        old(grid).wf(),
        interior(*old(grid), from),
        interior(*old(grid), to),
        from.x == to.x || from.y == to.y,
    ensures
        carved_from(*old(grid), *final(grid)),
        forall|c: Coord| on_leg(from, to, c) ==> #[trigger] final(grid).spec_cell(c).walkable,
{
    let ghost g0 = *grid;
    let sx: i32 = if to.x > from.x {
        1
    } else if to.x < from.x {
        -1
    } else {
        0
    };
    let sy: i32 = if to.y > from.y {
        1
    } else if to.y < from.y {
        -1
    } else {
        0
    };
    let lane = Coord::new(if sy < 0 { -sy } else { sy }, if sx < 0 { -sx } else { sx });
    let dx = if to.x > from.x { to.x - from.x } else { from.x - to.x };
    let dy = if to.y > from.y { to.y - from.y } else { from.y - to.y };
    let steps = if dx > dy { dx } else { dy };
    let mut i: i32 = 0;
    while i <= steps
        invariant
            g0.wf(),
            carved_from(g0, *grid),
            interior(g0, from),
            interior(g0, to),
            from.x == to.x || from.y == to.y,
            sx == (if to.x > from.x { 1int } else if to.x < from.x { -1int } else { 0int }),
            sy == (if to.y > from.y { 1int } else if to.y < from.y { -1int } else { 0int }),
            lane.x == iabs(sy as int),
            lane.y == iabs(sx as int),
            steps == imax(iabs(to.x - from.x), iabs(to.y - from.y)),
            0 <= i <= steps + 1,
            forall|c: Coord| on_leg(from, to, c) && taxi_spec(from, c) < i ==> #[trigger] grid.spec_cell(c).walkable,
        decreases steps + 1 - i,
    {
        let ax = if sx > 0 { from.x + i } else if sx < 0 { from.x - i } else { from.x };
        let ay = if sy > 0 { from.y + i } else if sy < 0 { from.y - i } else { from.y };
        let at = Coord::new(ax, ay);
        assert(on_leg(from, to, at) && interior(g0, at));
        let ghost b0 = *grid;
        carve(grid, at);
        proof {
            lemma_carved_trans(g0, b0, *grid);
        }
        let roll = rand_inclusive(rng, 0, 99);
        let ghost b1 = *grid;
        proof {
            g0.lemma_wf();
        }
        if roll < PASSAGE_WIDE_PERCENT {
            carve(grid, Coord::new(at.x + lane.x, at.y + lane.y));
        }
        proof {
            if *grid != b1 {
                lemma_carved_trans(g0, b1, *grid);
            }
            assert forall|c: Coord| on_leg(from, to, c) && taxi_spec(from, c) < i + 1 implies #[trigger] grid.spec_cell(
                c,
            ).walkable by {
                if c == at {
                    assert(b1.spec_cell(c).walkable);
                } else {
                    assert(b0.spec_cell(c).walkable);
                    assert(b1.spec_cell(c) == b0.spec_cell(c) || b1.spec_cell(c) == dug(b0.spec_cell(c)));
                }
                assert(grid.spec_cell(c) == b1.spec_cell(c) || grid.spec_cell(c) == dug(b1.spec_cell(c)));
            }
        }
        i = i + 1;
    }
}

/// The elbow of a passage from `from` to `to`: at `to`'s column and
/// `from`'s row, or the other way about.
pub open spec fn elbow_of(from: Coord, to: Coord, across_first: bool) -> Coord {
    if across_first {
        Coord { x: to.x, y: from.y }
    } else {
        Coord { x: from.x, y: to.y }
    }
}

/// Every cell of both legs of a passage through `elbow` is open.
pub open spec fn legs_open(g: Grid, from: Coord, elbow: Coord, to: Coord) -> bool {
    forall|c: Coord| (on_leg(from, elbow, c) || on_leg(elbow, to, c)) ==> #[trigger] g.spec_cell(c).walkable
}

/// One passage: two straight legs meeting at an elbow, which lies at one
/// end's column and the other's row, picked by a coin.
pub fn carve_passage(grid: &mut Grid, rng: &mut Rng, from: Coord, to: Coord)
    requires
        old(grid).wf(),
        interior(*old(grid), from),
        interior(*old(grid), to),
    ensures
        carved_from(*old(grid), *final(grid)),
        exists|across_first: bool| #[trigger] legs_open(*final(grid), from, elbow_of(from, to, across_first), to),
{
    let ghost g0 = *grid;
    let across_first = rand_inclusive(rng, 0, 1) == 0;
    let elbow = if across_first {
        Coord::new(to.x, from.y)
    } else {
        Coord::new(from.x, to.y)
    };
    carve_run(grid, rng, from, elbow);
    let ghost g1 = *grid;
    carve_run(grid, rng, elbow, to);
    proof {
        lemma_carved_trans(g0, g1, *grid);
        assert forall|c: Coord| (on_leg(from, elbow, c) || on_leg(elbow, to, c)) implies #[trigger] grid.spec_cell(c).walkable by {
            if on_leg(from, elbow, c) {
                assert(g1.spec_cell(c).walkable);
                assert(grid.spec_cell(c) == g1.spec_cell(c) || grid.spec_cell(c) == dug(g1.spec_cell(c)));
            }
        }
        assert(legs_open(*grid, from, elbow_of(from, to, across_first), to));
    }
}


/// Whether the joining list holds the pair `(i, j)` in that order.
fn joins(edges: &Vec<(usize, usize)>, i: usize, j: usize) -> (b: bool)
    ensures
        b == edges@.contains((i, j)),
{
    let mut k: usize = 0;
    while k < edges.len()
        invariant
            k <= edges@.len(),
            forall|m: int| 0 <= m < k ==> edges@[m] != (i, j),
        decreases edges@.len() - k,
    {
        let e = edges[k];
        if e.0 == i && e.1 == j {
            assert(edges@[k as int] == (i, j));
            return true;
        }
        k = k + 1;
    }
    false
}

/// Join the chambers: a minimum spanning tree grown from the first site so
/// everywhere is reachable, plus [`PASSAGE_LOOPS`] short-cuts (the shortest
/// pairs the tree did not use, nearest first, ties by index) so the warren
/// is not a tree. Every joining is carved as a [`carve_passage`], tree
/// first, in the order found.
pub fn carve_passages(grid: &mut Grid, rng: &mut Rng, sites: &Vec<Coord>)
    requires
        old(grid).wf(),
        forall|k: int| 0 <= k < sites@.len() ==> interior(*old(grid), #[trigger] sites@[k]),
    ensures
        carved_from(*old(grid), *final(grid)),
        sites@.len() >= 2 ==> forall|k: int| 0 <= k < sites@.len() ==> #[trigger] final(grid).spec_cell(sites@[k]).walkable,
{
    let ghost g0 = *grid;
    let n = sites.len();
    if n < 2 {
        return ;
    }
    proof {
        assert forall|a: int, b: int| 0 <= a < n && 0 <= b < n implies #[trigger] taxi_spec(sites@[a], sites@[b])
            <= i32::MAX by {
            assert(interior(g0, sites@[a]) && interior(g0, sites@[b]));
            g0.lemma_taxi_fits(sites@[a], sites@[b]);
        }
    }
    let mut joined: Vec<bool> = super::repeat(false, n);
    proof {
        lemma_unvisited_none(joined@);
        lemma_unvisited_set(joined@, 0);
    }
    joined.set(0, true);
    let mut edges: Vec<(usize, usize)> = Vec::new();
    let mut round: usize = 1;
    while round < n
        invariant
            n == sites@.len(),
            n >= 2,
            joined@.len() == n,
            forall|a: int, b: int| 0 <= a < n && 0 <= b < n ==> #[trigger] taxi_spec(sites@[a], sites@[b]) <= i32::MAX,
            forall|k: int| 0 <= k < edges@.len() ==> (#[trigger] edges@[k]).0 < n && edges@[k].1 < n,
            1 <= round <= n,
            joined@[0],
            unvisited(joined@) == n - round,
            round == 1 ==> forall|j: int| 0 <= j < n && #[trigger] joined@[j] ==> j == 0,
            round >= 2 ==> forall|j: int| 0 <= j < n && #[trigger] joined@[j] ==> covered(edges@, j),
        ensures
            unvisited(joined@) == 0,
            joined@.len() == n,
            forall|j: int| 0 <= j < n && #[trigger] joined@[j] ==> covered(edges@, j),
            forall|k: int| 0 <= k < edges@.len() ==> (#[trigger] edges@[k]).0 < n && edges@[k].1 < n,
            forall|a: int, b: int| 0 <= a < n && 0 <= b < n ==> #[trigger] taxi_spec(sites@[a], sites@[b]) <= i32::MAX,
        decreases n - round,
    {
        proof {
            lemma_unvisited_some(joined@);
        }
        let ghost free = choose|j: int| 0 <= j < n && !joined@[j];
        let mut best: Option<(i32, usize, usize)> = None;
        let mut i: usize = 0;
        while i < n
            invariant
                n == sites@.len(),
                joined@.len() == n,
                forall|a: int, b: int| 0 <= a < n && 0 <= b < n ==> #[trigger] taxi_spec(sites@[a], sites@[b]) <= i32::MAX,
                best matches Some(t) ==> t.1 < n && t.2 < n,
                best matches Some(t) ==> joined@[t.1 as int] && !joined@[t.2 as int],
                joined@[0],
                0 <= free < n,
                !joined@[free],
                i > 0 ==> best is Some,
            decreases n - i,
        {
            if joined[i] {
                let mut j: usize = 0;
                while j < n
                    invariant
                        n == sites@.len(),
                        joined@.len() == n,
                        i < n,
                        forall|a: int, b: int|
                            0 <= a < n && 0 <= b < n ==> #[trigger] taxi_spec(sites@[a], sites@[b]) <= i32::MAX,
                        best matches Some(t) ==> t.1 < n && t.2 < n,
                        best matches Some(t) ==> joined@[t.1 as int] && !joined@[t.2 as int],
                        joined@[i as int],
                        0 <= free < n,
                        !joined@[free],
                        i > 0 ==> best is Some,
                        j > free ==> best is Some,
                    decreases n - j,
                {
                    if !joined[j] {
                        assert(taxi_spec(sites@[i as int], sites@[j as int]) <= i32::MAX);
                        let dist = sites[i].taxi(sites[j]);
                        let better = match best {
                            None => true,
                            Some(t) => dist < t.0,
                        };
                        if better {
                            best = Some((dist, i, j));
                        }
                    }
                    j = j + 1;
                }
            }
            i = i + 1;
        }
        match best {
            None => {
                break;
            },
            Some(t) => {
                let ghost j0 = joined@;
                let ghost e0 = edges@;
                proof {
                    lemma_unvisited_set(j0, t.2 as int);
                }
                joined.set(t.2, true);
                edges.push((t.1, t.2));
                proof {
                    assert(edges@[edges@.len() - 1] == (t.1, t.2));
                    assert forall|j: int| 0 <= j < n && #[trigger] joined@[j] implies covered(edges@, j) by {
                        if j == t.2 as int || j == t.1 as int {
                            assert(edges@[e0.len() as int] == (t.1, t.2));
                        } else {
                            assert(j0[j]);
                            if round == 1 {
                                assert(j == 0);
                                assert(t.1 == 0);
                            }
                            let m = choose|m: int| 0 <= m < e0.len() && (e0[m].0 == j || e0[m].1 == j);
                            assert(edges@[m] == e0[m]);
                        }
                    }
                }
            },
        }
        round = round + 1;
    }
    proof {
        lemma_unvisited_zero(joined@);
        assert forall|j: int| 0 <= j < n implies covered(edges@, j) by {
            assert(joined@[j]);
        }
    }
    let mut extra: usize = 0;
    while extra < PASSAGE_LOOPS
        invariant
            forall|j: int| 0 <= j < n ==> covered(edges@, j),
            n == sites@.len(),
            forall|a: int, b: int| 0 <= a < n && 0 <= b < n ==> #[trigger] taxi_spec(sites@[a], sites@[b]) <= i32::MAX,
            forall|k: int| 0 <= k < edges@.len() ==> (#[trigger] edges@[k]).0 < n && edges@[k].1 < n,
        decreases PASSAGE_LOOPS - extra,
    {
        let mut best: Option<(i32, usize, usize)> = None;
        let mut i: usize = 0;
        while i < n
            invariant
                n == sites@.len(),
                forall|a: int, b: int| 0 <= a < n && 0 <= b < n ==> #[trigger] taxi_spec(sites@[a], sites@[b]) <= i32::MAX,
                best matches Some(t) ==> t.1 < n && t.2 < n,
                forall|q: int| 0 <= q < n ==> covered(edges@, q),
            decreases n - i,
        {
            let mut j: usize = i + 1;
            while j < n
                invariant
                    n == sites@.len(),
                    i < n,
                    forall|a: int, b: int|
                        0 <= a < n && 0 <= b < n ==> #[trigger] taxi_spec(sites@[a], sites@[b]) <= i32::MAX,
                    best matches Some(t) ==> t.1 < n && t.2 < n,
                forall|q: int| 0 <= q < n ==> covered(edges@, q),
                decreases n - j,
            {
                if !joins(&edges, i, j) && !joins(&edges, j, i) {
                    assert(taxi_spec(sites@[i as int], sites@[j as int]) <= i32::MAX);
                    let dist = sites[i].taxi(sites[j]);
                    let better = match best {
                        None => true,
                        Some(t) => dist < t.0,
                    };
                    if better {
                        best = Some((dist, i, j));
                    }
                }
                j = j + 1;
            }
            i = i + 1;
        }
        match best {
            None => {
                break;
            },
            Some(t) => {
                let ghost e0 = edges@;
                edges.push((t.1, t.2));
                proof {
                    assert forall|j: int| 0 <= j < n implies covered(edges@, j) by {
                        assert(covered(e0, j));
                        let m = choose|m: int| 0 <= m < e0.len() && (e0[m].0 == j || e0[m].1 == j);
                        assert(edges@[m] == e0[m]);
                    }
                }
            },
        }
        extra = extra + 1;
    }
    let mut k: usize = 0;
    while k < edges.len()
        invariant
            g0.wf(),
            n == sites@.len(),
            forall|m: int| 0 <= m < n ==> interior(g0, #[trigger] sites@[m]),
            forall|m: int| 0 <= m < edges@.len() ==> (#[trigger] edges@[m]).0 < n && edges@[m].1 < n,
            carved_from(g0, *grid),
            k <= edges@.len(),
            forall|j: int| 0 <= j < n ==> covered(edges@, j),
            forall|m: int|
                0 <= m < k ==> grid.spec_cell(sites@[(#[trigger] edges@[m]).0 as int]).walkable && grid.spec_cell(
                    sites@[edges@[m].1 as int],
                ).walkable,
        decreases edges@.len() - k,
    {
        let e = edges[k];
        assert(edges@[k as int].0 < n && edges@[k as int].1 < n);
        assert(interior(g0, sites@[e.0 as int]) && interior(g0, sites@[e.1 as int]));
        let ghost before = *grid;
        let from = sites[e.0];
        let to = sites[e.1];
        carve_passage(grid, rng, from, to);
        proof {
            lemma_carved_trans(g0, before, *grid);
            let af = choose|af: bool| #[trigger] legs_open(*grid, from, elbow_of(from, to, af), to);
            assert(on_leg(from, elbow_of(from, to, af), from));
            assert(on_leg(elbow_of(from, to, af), to, to));
            assert(grid.spec_cell(from).walkable);
            assert(grid.spec_cell(to).walkable);
            assert forall|m: int|
                0 <= m < k + 1 implies grid.spec_cell(sites@[(#[trigger] edges@[m]).0 as int]).walkable && grid.spec_cell(
                    sites@[edges@[m].1 as int],
                ).walkable by {
                if m < k {
                    let a = sites@[edges@[m].0 as int];
                    let b = sites@[edges@[m].1 as int];
                    assert(before.spec_cell(a).walkable && before.spec_cell(b).walkable);
                    assert(grid.spec_cell(a) == before.spec_cell(a) || grid.spec_cell(a) == dug(before.spec_cell(a)));
                    assert(grid.spec_cell(b) == before.spec_cell(b) || grid.spec_cell(b) == dug(before.spec_cell(b)));
                }
            }
        }
        k = k + 1;
    }
    proof {
        assert forall|j: int| 0 <= j < sites@.len() implies #[trigger] grid.spec_cell(sites@[j]).walkable by {
            assert(covered(edges@, j));
            let m = choose|m: int| 0 <= m < edges@.len() && (edges@[m].0 == j || edges@[m].1 == j);
            assert(grid.spec_cell(sites@[edges@[m].0 as int]).walkable && grid.spec_cell(sites@[edges@[m].1 as int]).walkable);
        }
    }
}

/// Some joining in `edges` has `j` at one end.
pub open spec fn covered(edges: Seq<(usize, usize)>, j: int) -> bool {
    exists|m: int| 0 <= m < edges.len() && (edges[m].0 == j || edges[m].1 == j)
}

/// Rock cells with exactly one open neighbour that win the erosion roll, in
/// reading order: the cells one pass of erosion eats.
fn erodible(grid: &Grid, rng: &mut Rng) -> (r: Vec<Coord>)
    requires
        grid.wf(),
    ensures
        forall|k: int|
            0 <= k < r@.len() ==> interior(*grid, #[trigger] r@[k]) && !grid.spec_cell(r@[k]).walkable
                && grid.adjacent_spec(r@[k], true).len() == EROSION_NEIGHBOURS,
{
    let mut out: Vec<Coord> = Vec::new();
    let w = grid.width();
    let h = grid.height();
    let mut y: i32 = 1;
    while y < h - 1
        invariant
            grid.wf(),
            w == grid.spec_width(),
            h == grid.spec_height(),
            0 <= w,
            0 <= h,
            1 <= y,
            forall|k: int|
                0 <= k < out@.len() ==> interior(*grid, #[trigger] out@[k]) && !grid.spec_cell(out@[k]).walkable
                    && grid.adjacent_spec(out@[k], true).len() == EROSION_NEIGHBOURS,
        decreases h - y,
    {
        let mut x: i32 = 1;
        while x < w - 1
            invariant
                grid.wf(),
                w == grid.spec_width(),
                h == grid.spec_height(),
                0 <= w,
                0 <= h,
                1 <= y < h - 1,
                1 <= x,
                forall|k: int|
                    0 <= k < out@.len() ==> interior(*grid, #[trigger] out@[k]) && !grid.spec_cell(out@[k]).walkable
                        && grid.adjacent_spec(out@[k], true).len() == EROSION_NEIGHBOURS,
            decreases w - x,
        {
            let at = Coord::new(x, y);
            if !grid.walkable(at) {
                if grid.adjacent_walkable(at).len() == EROSION_NEIGHBOURS && rand_inclusive(rng, 0, 99)
                    < EROSION_PERCENT {
                    out.push(at);
                }
            }
            x = x + 1;
        }
        y = y + 1;
    }
    out
}

/// Eat at the edges of what is already there, [`EROSION_ROUNDS`] times.
///
/// Only rock with exactly one open neighbour is eligible, so every cell this
/// takes is a blind alcove hung off what is already there: the cheapest
/// geometry in the game, bought without touching the shape of the warren.
/// Every cell it opens lies beside open floor.
pub fn erode(grid: &mut Grid, rng: &mut Rng)
    requires
        old(grid).wf(),
    ensures
        carved_from(*old(grid), *final(grid)),
        forall|c: Coord|
            !old(grid).spec_cell(c).walkable && #[trigger] final(grid).spec_cell(c).walkable ==> open_beside(
                *final(grid),
                c,
            ),
{
    let ghost g0 = *grid;
    let mut round: u32 = 0;
    while round < EROSION_ROUNDS
        invariant
            g0.wf(),
            carved_from(g0, *grid),
            forall|c: Coord| !g0.spec_cell(c).walkable && #[trigger] grid.spec_cell(c).walkable ==> open_beside(*grid, c),
        decreases EROSION_ROUNDS - round,
    {
        let eaten = erodible(grid, rng);
        let ghost gr = *grid;
        let mut k: usize = 0;
        while k < eaten.len()
            invariant
                g0.wf(),
                gr.wf(),
                carved_from(g0, *grid),
                carved_from(gr, *grid),
                forall|c: Coord| !g0.spec_cell(c).walkable && #[trigger] grid.spec_cell(c).walkable ==> open_beside(*grid, c),
                forall|m: int|
                    0 <= m < eaten@.len() ==> interior(gr, #[trigger] eaten@[m]) && !gr.spec_cell(eaten@[m]).walkable
                        && gr.adjacent_spec(eaten@[m], true).len() == EROSION_NEIGHBOURS,
            decreases eaten@.len() - k,
        {
            let ghost before = *grid;
            let at = eaten[k];
            proof {
                gr.lemma_adjacent_walkable_spec(at);
                let n = gr.adjacent_spec(at, true)[0];
                assert(gr.spec_in_bounds(n) && taxi_spec(at, n) == 1 && gr.spec_cell(n).walkable);
                assert(before.spec_cell(n).walkable);
            }
            carve(grid, at);
            proof {
                lemma_carved_trans(g0, before, *grid);
                lemma_carved_trans(gr, before, *grid);
                let n = gr.adjacent_spec(at, true)[0];
                assert(grid.spec_cell(n).walkable);
                assert forall|c: Coord| !g0.spec_cell(c).walkable && #[trigger] grid.spec_cell(c).walkable implies open_beside(
                    *grid,
                    c,
                ) by {
                    if c == at {
                        assert(grid.spec_in_bounds(n) && taxi_spec(n, c) == 1 && grid.spec_cell(n).walkable);
                    } else {
                        assert(before.spec_cell(c).walkable);
                        let m = choose|m: Coord|
                            before.spec_in_bounds(m) && taxi_spec(m, c) == 1 && #[trigger] before.spec_cell(m).walkable;
                        assert(grid.spec_cell(m).walkable);
                    }
                }
            }
            k = k + 1;
        }
        round = round + 1;
    }
}

/// Some cell beside `c` on the map is open floor.
pub open spec fn open_beside(g: Grid, c: Coord) -> bool {
    exists|m: Coord| g.spec_in_bounds(m) && taxi_spec(m, c) == 1 && #[trigger] g.spec_cell(m).walkable
}


/// How many cells a labelling has not reached yet.
pub open spec fn unvisited(s: Seq<bool>) -> nat
    decreases s.len(),
{
    if s.len() == 0 {
        0
    } else {
        unvisited(s.drop_last()) + (if s.last() { 0nat } else { 1nat })
    }
}

/// Reaching one more cell leaves one fewer unvisited.
pub proof fn lemma_unvisited_set(s: Seq<bool>, i: int)
    requires
        0 <= i < s.len(),
        !s[i],
    ensures
        unvisited(s.update(i, true)) + 1 == unvisited(s),
    decreases s.len(),
{
    let u = s.update(i, true);
    if i == s.len() - 1 {
        assert(u.drop_last() =~= s.drop_last());
    } else {
        assert(u.drop_last() =~= s.drop_last().update(i, true));
        lemma_unvisited_set(s.drop_last(), i);
    }
}

/// Each cell after the first lies beside an earlier one, so the cells
/// form one four-connected piece.
pub open spec fn joined(m: Seq<Coord>) -> bool {
    forall|k: int| 0 < k < m.len() ==> exists|j: int| 0 <= j < k && taxi_spec(m[j], #[trigger] m[k]) == 1
}

/// Every open cell beside one of the first `upto` cells of `m` is in `m`.
pub open spec fn closed_upto(g: Grid, m: Seq<Coord>, upto: int) -> bool {
    forall|k: int, c: Coord|
        0 <= k < upto && k < m.len() && g.spec_in_bounds(c) && #[trigger] taxi_spec(c, m[k]) == 1
            && g.spec_cell(c).walkable ==> m.contains(c)
}

/// No cell lies in two pockets of the list.
pub open spec fn apart(pockets: Seq<Vec<Coord>>) -> bool {
    forall|p: int, q: int, c: Coord|
        0 <= p < pockets.len() && 0 <= q < pockets.len() && p != q && #[trigger] pockets[p]@.contains(c)
            ==> !#[trigger] pockets[q]@.contains(c)
}

/// Whether some pocket of the list holds `c`.
pub open spec fn filed(pockets: Seq<Vec<Coord>>, c: Coord) -> bool {
    exists|p: int| 0 <= p < pockets.len() && (#[trigger] pockets[p])@.contains(c)
}

/// Four-connected components of the walkable space, each grown breadth
/// first from its first cell met scanning column by column.
///
/// Every pocket holds at least one cell, every cell of every pocket is open
/// floor, and every open cell lies in some pocket.
pub fn calculate_pockets(grid: &Grid) -> (r: Vec<Vec<Coord>>)
    requires
        grid.wf(),
    ensures
        forall|p: int| 0 <= p < r@.len() ==> (#[trigger] r@[p])@.len() > 0,
        forall|p: int, k: int|
            0 <= p < r@.len() && 0 <= k < r@[p]@.len() ==> grid.spec_in_bounds(#[trigger] r@[p]@[k])
                && grid.spec_cell(r@[p]@[k]).walkable,
        forall|c: Coord| grid.spec_in_bounds(c) && grid.spec_cell(c).walkable ==> #[trigger] filed(r@, c),
        apart(r@),
        forall|p: int| 0 <= p < r@.len() ==> joined((#[trigger] r@[p])@),
        forall|p: int| 0 <= p < r@.len() ==> closed_upto(*grid, (#[trigger] r@[p])@, r@[p]@.len() as int),
{
    let w = grid.width();
    let h = grid.height();
    let cells = (w * h) as usize;
    let ghost wi = w as int;
    let mut labelled: Vec<bool> = super::repeat(false, cells);
    let mut pockets: Vec<Vec<Coord>> = Vec::new();
    proof {
        assert forall|c: Coord| grid.spec_in_bounds(c) implies !#[trigger] labelled@[super::flat_index(wi, c)] by {
            super::lemma_flat_index(wi, h as int, c);
        }
    }
    let mut x: i32 = 0;
    while x < w
        invariant
            grid.wf(),
            w == grid.spec_width(),
            h == grid.spec_height(),
            wi == w,
            0 <= w,
            0 <= h,
            w * h <= i32::MAX,
            cells == w * h,
            labelled@.len() == cells,
            0 <= x <= w,
            forall|p: int, k: int| 0 <= p < pockets@.len() && 0 <= k < pockets@[p]@.len() ==> labelled@[super::flat_index(wi, #[trigger] pockets@[p]@[k])],
            apart(pockets@),
            forall|p: int| 0 <= p < pockets@.len() ==> joined((#[trigger] pockets@[p])@),
            forall|p: int| 0 <= p < pockets@.len() ==> closed_upto(*grid, (#[trigger] pockets@[p])@, pockets@[p]@.len() as int),
            forall|p: int| 0 <= p < pockets@.len() ==> (#[trigger] pockets@[p])@.len() > 0,
            forall|p: int, k: int|
                0 <= p < pockets@.len() && 0 <= k < pockets@[p]@.len() ==> grid.spec_in_bounds(
                    #[trigger] pockets@[p]@[k],
                ) && grid.spec_cell(pockets@[p]@[k]).walkable,
            forall|c: Coord|
                grid.spec_in_bounds(c) && #[trigger] labelled@[super::flat_index(wi, c)] ==> filed(pockets@, c),
            forall|c: Coord|
                grid.spec_in_bounds(c) && c.x < x && grid.spec_cell(c).walkable ==> #[trigger] labelled@[super::flat_index(
                    wi,
                    c,
                )],
        decreases w - x,
    {
        let mut y: i32 = 0;
        while y < h
            invariant
                grid.wf(),
                w == grid.spec_width(),
                h == grid.spec_height(),
                wi == w,
                0 <= w,
                0 <= h,
                w * h <= i32::MAX,
                cells == w * h,
                labelled@.len() == cells,
                0 <= x < w,
                0 <= y <= h,
                forall|p: int, k: int| 0 <= p < pockets@.len() && 0 <= k < pockets@[p]@.len() ==> labelled@[super::flat_index(wi, #[trigger] pockets@[p]@[k])],
                apart(pockets@),
                forall|p: int| 0 <= p < pockets@.len() ==> joined((#[trigger] pockets@[p])@),
                forall|p: int| 0 <= p < pockets@.len() ==> closed_upto(*grid, (#[trigger] pockets@[p])@, pockets@[p]@.len() as int),
                forall|p: int| 0 <= p < pockets@.len() ==> (#[trigger] pockets@[p])@.len() > 0,
                forall|p: int, k: int|
                    0 <= p < pockets@.len() && 0 <= k < pockets@[p]@.len() ==> grid.spec_in_bounds(
                        #[trigger] pockets@[p]@[k],
                    ) && grid.spec_cell(pockets@[p]@[k]).walkable,
                forall|c: Coord|
                    grid.spec_in_bounds(c) && #[trigger] labelled@[super::flat_index(wi, c)] ==> filed(pockets@, c),
                forall|c: Coord|
                    grid.spec_in_bounds(c) && (c.x < x || (c.x == x && c.y < y)) && grid.spec_cell(c).walkable
                        ==> #[trigger] labelled@[super::flat_index(wi, c)],
            decreases h - y,
        {
            let start = Coord::new(x, y);
            proof {
                super::lemma_flat_index(wi, h as int, start);
                reveal(super::flat_index);
            }
            let si = (y * w + x) as usize;
            if !labelled[si] && grid.walkable(start) {
                let ghost l0 = labelled@;
                labelled.set(si, true);
                proof {
                    lemma_unvisited_set(l0, si as int);
                }
                let mut members: Vec<Coord> = Vec::new();
                members.push(start);
                let mut queue: std::collections::VecDeque<Coord> = std::collections::VecDeque::new();
                queue.push_back(start);
                let ghost mut done: int = 0;
                proof {
                    assert(labelled@[super::flat_index(wi, start)]);
                    assert forall|p: int, k: int| 0 <= p < pockets@.len() && 0 <= k < pockets@[p]@.len() implies labelled@[super::flat_index(
                        wi,
                        #[trigger] pockets@[p]@[k],
                    )] by {
                        super::lemma_flat_index(wi, h as int, pockets@[p]@[k]);
                        assert(l0[super::flat_index(wi, pockets@[p]@[k])]);
                    }
                    if filed(pockets@, start) {
                        let p = choose|p: int| 0 <= p < pockets@.len() && (#[trigger] pockets@[p])@.contains(start);
                        let k = choose|k: int| 0 <= k < pockets@[p]@.len() && pockets@[p]@[k] == start;
                        assert(l0[super::flat_index(wi, pockets@[p]@[k])]);
                    }
                    assert forall|c: Coord| #[trigger] members@.contains(c) implies !filed(pockets@, c) by {
                        assert(members@[0] == start);
                    }
                    assert(queue@ =~= members@.subrange(0, 1));
                }
                proof {
                    assert forall|c: Coord| grid.spec_in_bounds(c) && #[trigger] labelled@[super::flat_index(wi, c)] implies (
                    filed(pockets@, c) || members@.contains(c)) by {
                        super::lemma_flat_index(wi, h as int, c);
                        if c != start {
                            assert(super::flat_index(wi, c) != si);
                            assert(l0[super::flat_index(wi, c)]);
                        } else {
                            assert(members@[0] == start);
                        }
                    }
                    assert forall|c: Coord|
                        grid.spec_in_bounds(c) && (c.x < x || (c.x == x && c.y < y + 1)) && grid.spec_cell(c).walkable
                            implies #[trigger] labelled@[super::flat_index(wi, c)] by {
                        super::lemma_flat_index(wi, h as int, c);
                        if c != start {
                            assert(super::flat_index(wi, c) != si);
                            assert(l0[super::flat_index(wi, c)]);
                        }
                    }
                    lemma_unvisited_le(labelled@);
                }
                while queue.len() > 0
                    invariant
                        grid.wf(),
                        w == grid.spec_width(),
                        h == grid.spec_height(),
                        wi == w,
                        0 <= w,
                        0 <= h,
                        w * h <= i32::MAX,
                        cells == w * h,
                        labelled@.len() == cells,
                        0 <= x < w,
                        0 <= y < h,
                        members@.len() > 0,
                        forall|p: int, k: int| 0 <= p < pockets@.len() && 0 <= k < pockets@[p]@.len() ==> labelled@[super::flat_index(wi, #[trigger] pockets@[p]@[k])],
                        apart(pockets@),
                        forall|p: int| 0 <= p < pockets@.len() ==> joined((#[trigger] pockets@[p])@),
                        forall|p: int| 0 <= p < pockets@.len() ==> closed_upto(*grid, (#[trigger] pockets@[p])@, pockets@[p]@.len() as int),
                        forall|k: int| 0 <= k < members@.len() ==> labelled@[super::flat_index(wi, #[trigger] members@[k])],
                        forall|c: Coord| #[trigger] members@.contains(c) ==> !filed(pockets@, c),
                        joined(members@),
                        0 <= done <= members@.len(),
                        queue@ == members@.subrange(done, members@.len() as int),
                        closed_upto(*grid, members@, done),
                        forall|k: int|
                            0 <= k < members@.len() ==> grid.spec_in_bounds(#[trigger] members@[k])
                                && grid.spec_cell(members@[k]).walkable,
                        forall|p: int| 0 <= p < pockets@.len() ==> (#[trigger] pockets@[p])@.len() > 0,
                        forall|p: int, k: int|
                            0 <= p < pockets@.len() && 0 <= k < pockets@[p]@.len() ==> grid.spec_in_bounds(
                                #[trigger] pockets@[p]@[k],
                            ) && grid.spec_cell(pockets@[p]@[k]).walkable,
                        forall|c: Coord|
                            grid.spec_in_bounds(c) && #[trigger] labelled@[super::flat_index(wi, c)] ==> (filed(
                                pockets@,
                                c,
                            ) || members@.contains(c)),
                        forall|c: Coord|
                            grid.spec_in_bounds(c) && (c.x < x || (c.x == x && c.y < y + 1))
                                && grid.spec_cell(c).walkable ==> #[trigger] labelled@[super::flat_index(wi, c)],
                    ensures
                        queue@.len() == 0,
                    decreases unvisited(labelled@) + queue@.len(),
                {
                    let ghost q0 = queue@;
                    let at = match queue.pop_front() {
                        Some(c) => c,
                        None => {
                            break;
                        },
                    };
                    proof {
                        assert(at == members@[done]);
                        assert(queue@ =~= members@.subrange(done + 1, members@.len() as int));
                        done = done + 1;
                        grid.lemma_adjacent_spec(at);
                    }
                    let next = grid.adjacent(at);
                    let ghost measure = unvisited(labelled@) + queue@.len();
                    let mut k: usize = 0;
                    while k < next.len()
                        invariant
                            grid.wf(),
                            w == grid.spec_width(),
                            h == grid.spec_height(),
                            wi == w,
                            0 <= w,
                            0 <= h,
                            w * h <= i32::MAX,
                            cells == w * h,
                            labelled@.len() == cells,
                            0 <= x < w,
                            0 <= y < h,
                            next@ == grid.adjacent_spec(at, false),
                            unvisited(labelled@) + queue@.len() == measure,
                            members@.len() > 0,
                            forall|p: int, k: int| 0 <= p < pockets@.len() && 0 <= k < pockets@[p]@.len() ==> labelled@[super::flat_index(wi, #[trigger] pockets@[p]@[k])],
                            apart(pockets@),
                            forall|p: int| 0 <= p < pockets@.len() ==> joined((#[trigger] pockets@[p])@),
                            forall|p: int| 0 <= p < pockets@.len() ==> closed_upto(*grid, (#[trigger] pockets@[p])@, pockets@[p]@.len() as int),
                            forall|k: int| 0 <= k < members@.len() ==> labelled@[super::flat_index(wi, #[trigger] members@[k])],
                            forall|c: Coord| #[trigger] members@.contains(c) ==> !filed(pockets@, c),
                            joined(members@),
                            0 <= done <= members@.len(),
                            queue@ == members@.subrange(done, members@.len() as int),
                            1 <= done,
                            at == members@[done - 1],
                            closed_upto(*grid, members@, done - 1),
                            forall|i: int| 0 <= i < k && grid.spec_cell(next@[i]).walkable ==> members@.contains(#[trigger] next@[i]),
                            forall|m: int|
                                0 <= m < members@.len() ==> grid.spec_in_bounds(#[trigger] members@[m])
                                    && grid.spec_cell(members@[m]).walkable,
                            forall|p: int| 0 <= p < pockets@.len() ==> (#[trigger] pockets@[p])@.len() > 0,
                            forall|p: int, m: int|
                                0 <= p < pockets@.len() && 0 <= m < pockets@[p]@.len() ==> grid.spec_in_bounds(
                                    #[trigger] pockets@[p]@[m],
                                ) && grid.spec_cell(pockets@[p]@[m]).walkable,
                            forall|c: Coord|
                                grid.spec_in_bounds(c) && #[trigger] labelled@[super::flat_index(wi, c)] ==> (filed(
                                    pockets@,
                                    c,
                                ) || members@.contains(c)),
                            forall|c: Coord|
                                grid.spec_in_bounds(c) && (c.x < x || (c.x == x && c.y < y + 1))
                                    && grid.spec_cell(c).walkable ==> #[trigger] labelled@[super::flat_index(wi, c)],
                        decreases next@.len() - k,
                    {
                        let n = next[k];
                        proof {
                            grid.lemma_adjacent_spec(at);
                        }
                        assert(grid.spec_in_bounds(n));
                        proof {
                            super::lemma_flat_index(wi, h as int, n);
                            reveal(super::flat_index);
                        }
                        let ni = (n.y * w + n.x) as usize;
                        if !labelled[ni] && grid.walkable(n) {
                            let ghost l1 = labelled@;
                            let ghost m1 = members@;
                            let ghost qb = queue@;
                            labelled.set(ni, true);
                            members.push(n);
                            queue.push_back(n);
                            proof {
                                lemma_unvisited_set(l1, ni as int);
                                assert(grid.adjacent_spec(at, false)[k as int] == n);
                                assert(taxi_spec(at, n) == 1);
                                assert forall|p: int, j: int| 0 <= p < pockets@.len() && 0 <= j < pockets@[p]@.len() implies labelled@[super::flat_index(
                                    wi,
                                    #[trigger] pockets@[p]@[j],
                                )] by {
                                    super::lemma_flat_index(wi, h as int, pockets@[p]@[j]);
                                    assert(l1[super::flat_index(wi, pockets@[p]@[j])]);
                                }
                                assert forall|j: int| 0 <= j < members@.len() implies labelled@[super::flat_index(
                                    wi,
                                    #[trigger] members@[j],
                                )] by {
                                    super::lemma_flat_index(wi, h as int, members@[j]);
                                    if j < m1.len() {
                                        assert(members@[j] == m1[j]);
                                        assert(l1[super::flat_index(wi, m1[j])]);
                                    }
                                }
                                if filed(pockets@, n) {
                                    let p = choose|p: int| 0 <= p < pockets@.len() && (#[trigger] pockets@[p])@.contains(n);
                                    let j = choose|j: int| 0 <= j < pockets@[p]@.len() && pockets@[p]@[j] == n;
                                    assert(l1[super::flat_index(wi, pockets@[p]@[j])]);
                                }
                                assert forall|c: Coord| #[trigger] members@.contains(c) implies !filed(pockets@, c) by {
                                    if c != n {
                                        let j = choose|j: int| 0 <= j < members@.len() && members@[j] == c;
                                        assert(m1[j] == c);
                                        assert(m1.contains(c));
                                    }
                                }
                                assert forall|j: int| 0 < j < members@.len() implies exists|i: int|
                                    0 <= i < j && taxi_spec(members@[i], #[trigger] members@[j]) == 1 by {
                                    if j < m1.len() {
                                        assert(members@[j] == m1[j]);
                                        let i = choose|i: int| 0 <= i < j && taxi_spec(m1[i], #[trigger] m1[j]) == 1;
                                        assert(members@[i] == m1[i]);
                                    } else {
                                        assert(members@[done - 1] == at);
                                    }
                                }
                                assert(queue@ =~= members@.subrange(done, members@.len() as int));
                                assert forall|j: int, c: Coord| 0 <= j < done - 1 && j < members@.len() && grid.spec_in_bounds(c)
                                    && #[trigger] taxi_spec(c, members@[j]) == 1 && grid.spec_cell(c).walkable implies members@.contains(c) by {
                                    assert(members@[j] == m1[j]);
                                    assert(taxi_spec(c, m1[j]) == 1);
                                    assert(m1.contains(c));
                                    let i = choose|i: int| 0 <= i < m1.len() && m1[i] == c;
                                    assert(members@[i] == c);
                                }
                                assert forall|i: int| 0 <= i < k + 1 && grid.spec_cell(next@[i]).walkable implies members@.contains(#[trigger] next@[i]) by {
                                    if i < k {
                                        assert(m1.contains(next@[i]));
                                        let j = choose|j: int| 0 <= j < m1.len() && m1[j] == next@[i];
                                        assert(members@[j] == next@[i]);
                                    } else {
                                        assert(members@[members@.len() - 1] == n);
                                    }
                                }
                                assert forall|c: Coord|
                                    grid.spec_in_bounds(c) && #[trigger] labelled@[super::flat_index(wi, c)] implies (
                                    filed(pockets@, c) || members@.contains(c)) by {
                                    super::lemma_flat_index(wi, h as int, c);
                                    if c != n {
                                        assert(super::flat_index(wi, c) != ni);
                                        assert(l1[super::flat_index(wi, c)]);
                                        if m1.contains(c) {
                                            let q = choose|q: int| 0 <= q < m1.len() && m1[q] == c;
                                            assert(members@[q] == c);
                                        }
                                    } else {
                                        assert(members@[members@.len() - 1] == n);
                                    }
                                }
                                assert forall|c: Coord|
                                    grid.spec_in_bounds(c) && (c.x < x || (c.x == x && c.y < y + 1))
                                        && grid.spec_cell(c).walkable implies #[trigger] labelled@[super::flat_index(
                                    wi,
                                    c,
                                )] by {
                                    super::lemma_flat_index(wi, h as int, c);
                                    if c != n {
                                        assert(super::flat_index(wi, c) != ni);
                                        assert(l1[super::flat_index(wi, c)]);
                                    }
                                }
                            }
                        } else {
                            proof {
                                assert(grid.adjacent_spec(at, false)[k as int] == n);
                                assert(taxi_spec(at, n) == 1);
                                if grid.spec_cell(n).walkable && !members@.contains(n) {
                                    assert(labelled@[super::flat_index(wi, n)]);
                                    assert(filed(pockets@, n));
                                    let p = choose|p: int| 0 <= p < pockets@.len() && (#[trigger] pockets@[p])@.contains(n);
                                    let j = choose|j: int| 0 <= j < pockets@[p]@.len() && pockets@[p]@[j] == n;
                                    assert(members@[done - 1] == at);
                                    assert(grid.spec_in_bounds(at) && grid.spec_cell(at).walkable);
                                    assert(closed_upto(*grid, pockets@[p]@, pockets@[p]@.len() as int));
                                    assert(taxi_spec(at, pockets@[p]@[j]) == 1);
                                    assert(pockets@[p]@.contains(at));
                                    assert(filed(pockets@, at));
                                    assert(members@.contains(at));
                                    assert(false);
                                }
                                assert forall|i: int| 0 <= i < k + 1 && grid.spec_cell(next@[i]).walkable implies members@.contains(
                                    #[trigger] next@[i],
                                ) by {
                                    if i == k {
                                        assert(next@[i] == n);
                                    }
                                }
                            }
                        }
                        k = k + 1;
                    }
                    proof {
                        assert forall|j: int, c: Coord| 0 <= j < done && j < members@.len() && grid.spec_in_bounds(c)
                            && #[trigger] taxi_spec(c, members@[j]) == 1 && grid.spec_cell(c).walkable implies members@.contains(c) by {
                            if j == done - 1 {
                                assert(taxi_spec(at, c) == 1);
                                assert(grid.adjacent_spec(at, false).contains(c));
                                let i = choose|i: int| 0 <= i < next@.len() && next@[i] == c;
                                assert(grid.spec_cell(next@[i]).walkable);
                            }
                        }
                    }
                }
                proof {
                    assert(done == members@.len());
                }
                let ghost p0 = pockets@;
                let ghost mem = members@;
                pockets.push(members);
                proof {
                    assert(pockets@[pockets@.len() - 1]@ == mem);
                    assert forall|p: int, j: int| 0 <= p < pockets@.len() && 0 <= j < pockets@[p]@.len() implies labelled@[super::flat_index(
                        wi,
                        #[trigger] pockets@[p]@[j],
                    )] by {
                        if p < p0.len() {
                            assert(pockets@[p] == p0[p]);
                        } else {
                            assert(pockets@[p]@[j] == mem[j]);
                        }
                    }
                    assert forall|p: int, q: int, c: Coord|
                        0 <= p < pockets@.len() && 0 <= q < pockets@.len() && p != q && #[trigger] pockets@[p]@.contains(c)
                            && #[trigger] pockets@[q]@.contains(c) implies false by {
                        if p < p0.len() && q < p0.len() {
                            assert(pockets@[p] == p0[p]);
                            assert(pockets@[q] == p0[q]);
                        } else if p < p0.len() {
                            assert(pockets@[p] == p0[p]);
                            assert(mem.contains(c));
                            assert(filed(p0, c));
                        } else {
                            assert(pockets@[q] == p0[q]);
                            assert(mem.contains(c));
                            assert(filed(p0, c));
                        }
                    }
                    assert forall|p: int| 0 <= p < pockets@.len() implies joined((#[trigger] pockets@[p])@) && closed_upto(
                        *grid,
                        pockets@[p]@,
                        pockets@[p]@.len() as int,
                    ) by {
                        if p < p0.len() {
                            assert(pockets@[p] == p0[p]);
                        }
                    }
                    assert forall|c: Coord| grid.spec_in_bounds(c) && #[trigger] labelled@[super::flat_index(wi, c)] implies filed(
                        pockets@,
                        c,
                    ) by {
                        if filed(p0, c) {
                            let p = choose|p: int| 0 <= p < p0.len() && (#[trigger] p0[p])@.contains(c);
                            assert(pockets@[p] == p0[p]);
                        } else {
                            assert(pockets@[pockets@.len() - 1]@.contains(c));
                        }
                    }
                }
            }
            y = y + 1;
        }
        x = x + 1;
    }
    proof {
        assert forall|c: Coord| grid.spec_in_bounds(c) && grid.spec_cell(c).walkable implies #[trigger] filed(pockets@, c) by {
            assert(labelled@[super::flat_index(wi, c)]);
        }
    }
    pockets
}

/// A labelling that has reached nothing has every cell unvisited.
pub proof fn lemma_unvisited_none(s: Seq<bool>)
    requires
        forall|i: int| 0 <= i < s.len() ==> !#[trigger] s[i],
    ensures
        unvisited(s) == s.len(),
    decreases s.len(),
{
    if s.len() > 0 {
        lemma_unvisited_none(s.drop_last());
    }
}

/// Some cell is unvisited while the count is not zero.
pub proof fn lemma_unvisited_some(s: Seq<bool>)
    requires
        unvisited(s) > 0,
    ensures
        exists|i: int| 0 <= i < s.len() && !s[i],
    decreases s.len(),
{
    if !s.last() {
        assert(!s[s.len() - 1]);
    } else {
        lemma_unvisited_some(s.drop_last());
        let i = choose|i: int| 0 <= i < s.drop_last().len() && !s.drop_last()[i];
        assert(!s[i]);
    }
}

/// A count of zero means every cell has been reached.
pub proof fn lemma_unvisited_zero(s: Seq<bool>)
    requires
        unvisited(s) == 0,
    ensures
        forall|i: int| 0 <= i < s.len() ==> #[trigger] s[i],
    decreases s.len(),
{
    if s.len() > 0 {
        lemma_unvisited_zero(s.drop_last());
        assert forall|i: int| 0 <= i < s.len() implies #[trigger] s[i] by {
            if i < s.len() - 1 {
                assert(s.drop_last()[i] == s[i]);
            }
        }
    }
}

/// A labelling cannot have more unvisited cells than cells.
pub proof fn lemma_unvisited_le(s: Seq<bool>)
    ensures
        unvisited(s) <= s.len(),
    decreases s.len(),
{
    if s.len() > 0 {
        lemma_unvisited_le(s.drop_last());
    }
}


/// A square table of bridges, `n` rows of `n`.
pub open spec fn square(t: Seq<Vec<Option<Bridge>>>, n: int) -> bool {
    &&& t.len() == n
    &&& forall|r: int| 0 <= r < n ==> (#[trigger] t[r])@.len() == n
}

/// Write one entry of a table of bridges.
fn put_bridge(table: &mut Vec<Vec<Option<Bridge>>>, i: usize, j: usize, b: Option<Bridge>)
    requires
        i < old(table)@.len(),
        j < old(table)@[i as int]@.len(),
    ensures
        final(table)@.len() == old(table)@.len(),
        forall|r: int| 0 <= r < old(table)@.len() && r != i ==> #[trigger] final(table)@[r] == old(table)@[r],
        final(table)@[i as int]@ == old(table)@[i as int]@.update(j as int, b),
{
    let ghost t0 = table@;
    let mut row = table.remove(i);
    row.set(j, b);
    table.insert(i, row);
    proof {
        assert forall|r: int| 0 <= r < t0.len() && r != i implies #[trigger] table@[r] == t0[r] by {
            if r < i {
                assert(table@[r] == t0.remove(i as int)[r]);
            } else {
                assert(table@[r] == t0.remove(i as int)[r - 1]);
            }
        }
    }
}

/// Tunnel between any regions the carving left disjoint.
///
/// Each pocket's rock-touching cells are compared with every other's for
/// the closest pair; then, until one region is left, the closest pair of
/// regions still apart (first found on a tie) is joined by an
/// [`elbow_tunnel`], the two are merged, and the merged region keeps the
/// shorter of its two parts' bridges to everything else. On almost every map
/// this finds one region and does nothing.
pub fn connect_pockets(grid: &mut Grid)
    requires
        old(grid).wf(),
    ensures
        carved_from(*old(grid), *final(grid)),
{
    let ghost g0 = *grid;
    let pockets = calculate_pockets(grid);
    let n = pockets.len();
    if n < 2 {
        return ;
    }
    let mut borders: Vec<Vec<Coord>> = Vec::new();
    let mut p: usize = 0;
    while p < n
        invariant
            grid.wf(),
            *grid == g0,
            n == pockets@.len(),
            p <= n,
            borders@.len() == p,
            forall|q: int, k: int|
                0 <= q < pockets@.len() && 0 <= k < pockets@[q]@.len() ==> grid.spec_in_bounds(
                    #[trigger] pockets@[q]@[k],
                ),
            forall|q: int, k: int|
                0 <= q < borders@.len() && 0 <= k < borders@[q]@.len() ==> grid.spec_in_bounds(
                    #[trigger] borders@[q]@[k],
                ),
        decreases n - p,
    {
        let b = border_cells(grid, &pockets[p]);
        borders.push(b);
        p = p + 1;
    }
    let mut bridges: Vec<Vec<Option<Bridge>>> = Vec::new();
    let mut r: usize = 0;
    while r < n
        invariant
            r <= n,
            bridges@.len() == r,
            forall|q: int| 0 <= q < r ==> (#[trigger] bridges@[q])@.len() == n,
        decreases n - r,
    {
        bridges.push(super::repeat(None, n));
        r = r + 1;
    }
    let mut i: usize = 0;
    while i < n
        invariant
            grid.wf(),
            *grid == g0,
            n == borders@.len(),
            square(bridges@, n as int),
            forall|q: int, k: int|
                0 <= q < borders@.len() && 0 <= k < borders@[q]@.len() ==> grid.spec_in_bounds(
                    #[trigger] borders@[q]@[k],
                ),
        decreases n - i,
    {
        let mut j: usize = i + 1;
        while j < n
            invariant
                grid.wf(),
                *grid == g0,
                n == borders@.len(),
                i < n,
                square(bridges@, n as int),
                forall|q: int, k: int|
                    0 <= q < borders@.len() && 0 <= k < borders@[q]@.len() ==> grid.spec_in_bounds(
                        #[trigger] borders@[q]@[k],
                    ),
            decreases n - j,
        {
            proof {
                assert forall|k: int, m: int|
                    0 <= k < borders@[i as int]@.len() && 0 <= m < borders@[j as int]@.len() implies #[trigger] taxi_spec(
                        borders@[i as int]@[k],
                        borders@[j as int]@[m],
                    ) <= i32::MAX by {
                    assert(grid.spec_in_bounds(borders@[i as int]@[k]));
                    assert(grid.spec_in_bounds(borders@[j as int]@[m]));
                    grid.lemma_taxi_fits(borders@[i as int]@[k], borders@[j as int]@[m]);
                }
            }
            let b = best_bridge(&borders[i], &borders[j]);
            assert(bridges@[i as int]@.len() == n && bridges@[j as int]@.len() == n);
            put_bridge(&mut bridges, i, j, b);
            let back = match b {
                Some(x) => Some(Bridge { from: x.to, to: x.from, dist: x.dist }),
                None => None,
            };
            assert(bridges@[j as int]@.len() == n);
            put_bridge(&mut bridges, j, i, back);
            j = j + 1;
        }
        i = i + 1;
    }
    let mut alive: Vec<bool> = super::repeat(true, n);
    let mut remaining: usize = n;
    while remaining > 1
        invariant
            g0.wf(),
            carved_from(g0, *grid),
            square(bridges@, n as int),
            alive@.len() == n,
            remaining <= n,
        decreases remaining,
    {
        let mut best: Option<(usize, usize, Bridge)> = None;
        let mut a: usize = 0;
        while a < n
            invariant
                square(bridges@, n as int),
                alive@.len() == n,
                best matches Some(t) ==> t.0 < n && t.1 < n,
            decreases n - a,
        {
            let mut b: usize = a + 1;
            while b < n
                invariant
                    square(bridges@, n as int),
                    alive@.len() == n,
                    a < n,
                    best matches Some(t) ==> t.0 < n && t.1 < n,
                decreases n - b,
            {
                if alive[a] && alive[b] {
                    assert(bridges@[a as int]@.len() == n);
                    match bridges[a][b] {
                        Some(bridge) => {
                            let better = match best {
                                None => true,
                                Some(t) => bridge.dist < t.2.dist,
                            };
                            if better {
                                best = Some((a, b, bridge));
                            }
                        },
                        None => {},
                    }
                }
                b = b + 1;
            }
            a = a + 1;
        }
        let (bi, bj, bridge) = match best {
            Some(t) => t,
            None => {
                break;
            },
        };
        let ghost before = *grid;
        elbow_tunnel(grid, bridge.from, bridge.to);
        proof {
            lemma_carved_trans(g0, before, *grid);
        }
        let mut k: usize = 0;
        while k < n
            invariant
                square(bridges@, n as int),
                alive@.len() == n,
                bi < n,
                bj < n,
            decreases n - k,
        {
            if k != bi && k != bj && alive[k] {
                assert(bridges@[bi as int]@.len() == n && bridges@[bj as int]@.len() == n);
                let merged = shorter(bridges[bi][k], bridges[bj][k]);
                put_bridge(&mut bridges, bi, k, merged);
                let back = match merged {
                    Some(x) => Some(Bridge { from: x.to, to: x.from, dist: x.dist }),
                    None => None,
                };
                assert(bridges@[k as int]@.len() == n);
                put_bridge(&mut bridges, k, bi, back);
            }
            k = k + 1;
        }
        alive.set(bj, false);
        remaining = remaining - 1;
    }
}


// -- the world around the map ---------------------------------------------

impl Sim {
    /// Nothing stands on the map and nothing lies on it.
    pub closed spec fn bare(&self) -> bool {
        &&& self.actors@.len() == 0
        &&& self.items@.len() == 0
        &&& self.player_mass@.len() == 0
        &&& self.cities@.len() == 0
        &&& forall|i: int| 0 <= i < self.actor_at@.len() ==> #[trigger] self.actor_at@[i] is None
        &&& forall|i: int| 0 <= i < self.item_at@.len() ==> #[trigger] self.item_at@[i] is None
    }

    /// A bare world stays sound whatever the map becomes, as long as it keeps
    /// its size.
    proof fn lemma_bare_regrid(&self, other: &Sim)
        requires
            self.inv(),
            self.bare(),
            *other == (Sim { grid: other.grid, rng: other.rng, ..*self }),
            other.grid.wf(),
            other.grid.spec_width() == self.grid.spec_width(),
            other.grid.spec_height() == self.grid.spec_height(),
        ensures
            other.inv(),
            other.bare(),
    {
        reveal(occupancy_agrees);
    }

    /// Throw away everything except the run's identity, its generator and its
    /// logs: a rock map of the rules' size with nothing on it.
    fn reset_world(&mut self)
        requires
            old(self).inv(),
        ensures
            final(self).inv(),
            final(self).bare(),
            final(self).seed == old(self).seed,
            final(self).rng == old(self).rng,
            final(self).difficulty == old(self).difficulty,
            final(self).rules == old(self).rules,
            final(self).phase == old(self).phase,
            final(self).mode == old(self).mode,
            final(self).messages == old(self).messages,
            final(self).input_style == old(self).input_style,
            final(self).junctions@.len() == 0,
            final(self).cities_destroyed == 0,
            final(self).active is None,
            final(self).schedule.spec_entries().len() == 0,
            forall|c: Coord| #[trigger] final(self).grid.spec_cell(c) == super::grid::rock(),
            final(self).grid.spec_width() == old(self).rules.map_width,
            final(self).grid.spec_height() == old(self).rules.map_height,
    {
        let w = self.rules.map_width;
        let h = self.rules.map_height;
        assert(w * h <= 64 * 48);
        let cells = (w * h) as usize;
        self.grid = Grid::new(w, h);
        self.actors = ActorStore::new();
        self.items = ItemStore::new();
        self.actor_at = super::repeat(None, cells);
        self.item_at = super::repeat(None, cells);
        self.player_mass.clear();
        self.cities.clear();
        self.cities_destroyed = 0;
        self.reticles.clear();
        self.terrified.clear();
        self.rumors.clear();
        self.junctions.clear();
        self.depth = super::repeat(i32::MAX, cells);
        self.schedule.clear();
        self.active = None;
        self.player_turn = false;
        self.cursor = None;
        self.drag_cache = None;
        self.version = self.version.wrapping_add(1);
        proof {
            reveal(occupancy_agrees);
        }
    }
}


/// The shares of the map's short side that gates are asked to keep from each
/// other, tried in order. The last is a formality: by then the map has no
/// room left.
pub open spec fn gate_gap_share_spec(i: int) -> i32 {
    if i == 0 {
        3
    } else if i == 1 {
        4
    } else if i == 2 {
        6
    } else {
        16
    }
}

/// The executable form of [`gate_gap_share_spec`].
pub fn gate_gap_share(i: usize) -> (r: i32)
    ensures
        r == gate_gap_share_spec(i as int),
        r >= 3,
{
    if i == 0 {
        3
    } else if i == 1 {
        4
    } else if i == 2 {
        6
    } else {
        16
    }
}

/// Whether `d` is one step in one of the four directions.
pub open spec fn unit_step(d: Coord) -> bool {
    ||| d == dir_offset(Dir::Left)
    ||| d == dir_offset(Dir::Right)
    ||| d == dir_offset(Dir::Up)
    ||| d == dir_offset(Dir::Down)
}

/// `v` moved `k` steps the way the sign of `s` points.
pub open spec fn along(v: int, s: int, k: int) -> int {
    if s > 0 {
        v + k
    } else if s < 0 {
        v - k
    } else {
        v
    }
}

/// `c` moved `k` steps of `d`, when that fits an `i32`.
pub open spec fn stepped(c: Coord, d: Coord, k: int) -> Coord {
    Coord { x: along(c.x as int, d.x as int, k) as i32, y: along(c.y as int, d.y as int, k) as i32 }
}

impl Sim {
    /// A gate stands on `c`.
    pub closed spec fn gate_on(&self, c: Coord) -> bool {
        self.occupant(c) matches Some(a) && self.live(a) && is_city(self.actor(a).kind)
    }

    /// Every live actor is a gate: the world while gates are being placed.
    pub closed spec fn only_gates(&self) -> bool {
        forall|n: int| 0 <= n < self.actors@.len() && #[trigger] self.actors@[n] is Some ==> is_city(self.actors@[n]->0.kind)
    }

    /// The `m`th cell of a gatehouse passage from `from` along `dir` lies
    /// inside the ring, is rock, and no gate stands on it or beside it.
    pub closed spec fn passage_ok(&self, from: Coord, dir: Coord, m: int) -> bool {
        &&& 0 < along(from.x as int, dir.x as int, m) < self.grid.spec_width() - 1
        &&& 0 < along(from.y as int, dir.y as int, m) < self.grid.spec_height() - 1
        &&& interior(self.grid, stepped(from, dir, m))
        &&& !self.grid.spec_cell(stepped(from, dir, m)).walkable
        &&& !self.touches_gate_spec(stepped(from, dir, m))
    }

    /// Whether a gate stands on `c` or on a cell beside it.
    pub closed spec fn touches_gate_spec(&self, c: Coord) -> bool {
        self.gate_on(c) || exists|k: int|
            0 <= k < self.grid.adjacent_spec(c, false).len() && self.gate_on(
                #[trigger] self.grid.adjacent_spec(c, false)[k],
            )
    }

    /// Whether a gate stands on `c`.
    pub(crate) fn gate_at(&self, c: Coord) -> (b: bool)
        requires
            self.inv(),
        ensures
            b == self.gate_on(c),
    {
        match self.actor_at(c) {
            Some(id) => match self.actors.get(id) {
                Some(a) => is_city(a.kind),
                None => false,
            },
            None => false,
        }
    }

    /// Whether a gate is standing on this cell or beside it.
    fn touches_gate(&self, c: Coord) -> (b: bool)
        requires
            self.inv(),
        ensures
            b == self.touches_gate_spec(c),
    {
        if self.gate_at(c) {
            return true;
        }
        let next = self.grid.adjacent(c);
        let mut k: usize = 0;
        while k < next.len()
            invariant
                self.inv(),
                next@ == self.grid.adjacent_spec(c, false),
                k <= next@.len(),
                !self.gate_on(c),
                forall|m: int| 0 <= m < k ==> !self.gate_on(#[trigger] next@[m]),
            decreases next@.len() - k,
        {
            if self.gate_at(next[k]) {
                return true;
            }
            k = k + 1;
        }
        false
    }

    /// Every floor cell with rock beside it, paired with the way the rock
    /// lies, in reading order and left, right, up, down. A cheap sieve, not a
    /// promise: [`Sim::dig_gatehouse`] decides whether a passage really fits.
    fn gatehouse_sites(&self) -> (r: Vec<(Coord, Coord)>)
        requires
            self.inv(),
        ensures
            forall|k: int|
                0 <= k < r@.len() ==> self.grid.spec_in_bounds((#[trigger] r@[k]).0) && self.grid.spec_cell(
                    r@[k].0,
                ).walkable && unit_step(r@[k].1),
            forall|k: int| 0 <= k < r@.len() ==> self.gate_site((#[trigger] r@[k]).0, r@[k].1),
            forall|c: Coord, d: Coord| #[trigger] self.gate_site(c, d) ==> r@.contains((c, d)),
    {
        let w = self.grid.width();
        let h = self.grid.height();
        let dirs = [Dir::Left, Dir::Right, Dir::Up, Dir::Down];
        let mut out: Vec<(Coord, Coord)> = Vec::new();
        let mut y: i32 = 0;
        while y < h
            invariant
                self.inv(),
                w == self.grid.spec_width(),
                h == self.grid.spec_height(),
                0 <= w,
                0 <= h,
                0 <= y <= h,
                dirs@ == seq![Dir::Left, Dir::Right, Dir::Up, Dir::Down],
                forall|k: int|
                    0 <= k < out@.len() ==> self.grid.spec_in_bounds((#[trigger] out@[k]).0)
                        && self.grid.spec_cell(out@[k].0).walkable && unit_step(out@[k].1),
                forall|k: int| 0 <= k < out@.len() ==> self.gate_site((#[trigger] out@[k]).0, out@[k].1),
                forall|c: Coord, d: Coord| #[trigger] self.gate_site(c, d) && c.y < y ==> out@.contains((c, d)),
            decreases h - y,
        {
            let mut x: i32 = 0;
            while x < w
                invariant
                    self.inv(),
                    w == self.grid.spec_width(),
                    h == self.grid.spec_height(),
                    0 <= y < h,
                    0 <= x <= w,
                    dirs@ == seq![Dir::Left, Dir::Right, Dir::Up, Dir::Down],
                    forall|k: int|
                        0 <= k < out@.len() ==> self.grid.spec_in_bounds((#[trigger] out@[k]).0)
                            && self.grid.spec_cell(out@[k].0).walkable && unit_step(out@[k].1),
                    forall|k: int| 0 <= k < out@.len() ==> self.gate_site((#[trigger] out@[k]).0, out@[k].1),
                    forall|c: Coord, d: Coord|
                        #[trigger] self.gate_site(c, d) && (c.y < y || (c.y == y && c.x < x)) ==> out@.contains((c, d)),
                decreases w - x,
            {
                let c = Coord::new(x, y);
                if self.grid.walkable(c) {
                    let mut d: usize = 0;
                    while d < 4
                        invariant
                            self.inv(),
                            w == self.grid.spec_width(),
                            h == self.grid.spec_height(),
                            self.grid.spec_in_bounds(c),
                            self.grid.spec_cell(c).walkable,
                            c.x == x && c.y == y,
                            0 <= y < h,
                            0 <= x < w,
                            d <= 4,
                            dirs@ == seq![Dir::Left, Dir::Right, Dir::Up, Dir::Down],
                            forall|k: int|
                                0 <= k < out@.len() ==> self.grid.spec_in_bounds((#[trigger] out@[k]).0)
                                    && self.grid.spec_cell(out@[k].0).walkable && unit_step(out@[k].1),
                            forall|k: int| 0 <= k < out@.len() ==> self.gate_site((#[trigger] out@[k]).0, out@[k].1),
                            forall|e: Coord, f: Coord|
                                #[trigger] self.gate_site(e, f) && (e.y < y || (e.y == y && e.x < x)) ==> out@.contains((e, f)),
                            forall|j: int|
                                0 <= j < d && self.gate_site(c, dir_offset(#[trigger] dirs@[j])) ==> out@.contains(
                                    (c, dir_offset(dirs@[j])),
                                ),
                        decreases 4 - d,
                    {
                        let off = dirs[d].offset();
                        proof {
                            self.grid.lemma_wf();
                        }
                        let ghost before = out@;
                        if !self.grid.walkable(Coord::new(c.x + off.x, c.y + off.y)) {
                            out.push((c, off));
                            proof {
                                assert(out@[out@.len() - 1] == (c, off));
                                assert forall|q: (Coord, Coord)| before.contains(q) implies out@.contains(q) by {
                                    let m = choose|m: int| 0 <= m < before.len() && before[m] == q;
                                    assert(out@[m] == q);
                                }
                                assert forall|k: int| 0 <= k < out@.len() implies self.gate_site(
                                    (#[trigger] out@[k]).0,
                                    out@[k].1,
                                ) by {
                                    if k < before.len() {
                                        assert(out@[k] == before[k]);
                                    }
                                }
                            }
                        }
                        proof {
                            assert(off == dir_offset(dirs@[d as int]));
                            if self.gate_site(c, off) {
                                assert(out@.contains((c, off)));
                            }
                        }
                        d = d + 1;
                    }
                    proof {
                        assert forall|e: Coord, f: Coord|
                            #[trigger] self.gate_site(e, f) && (e.y < y || (e.y == y && e.x < x + 1)) implies out@.contains((e, f)) by {
                            if e == c {
                                assert(unit_step(f));
                                if f == dir_offset(Dir::Left) {
                                    assert(dirs@[0] == Dir::Left);
                                } else if f == dir_offset(Dir::Right) {
                                    assert(dirs@[1] == Dir::Right);
                                } else if f == dir_offset(Dir::Up) {
                                    assert(dirs@[2] == Dir::Up);
                                } else {
                                    assert(dirs@[3] == Dir::Down);
                                }
                            }
                        }
                    }
                } else {
                    proof {
                        assert forall|e: Coord, f: Coord|
                            #[trigger] self.gate_site(e, f) && (e.y < y || (e.y == y && e.x < x + 1)) implies out@.contains((e, f)) by {
                            if e == c {
                                assert(false);
                            }
                        }
                    }
                }
                x = x + 1;
            }
            y = y + 1;
        }
        proof {
            assert forall|c: Coord, d: Coord| #[trigger] self.gate_site(c, d) implies out@.contains((c, d)) by {
                assert(c.y < y);
            }
        }
        out
    }

    /// Whether a gatehouse passage could start from `c` toward `d`: `c` is
    /// open floor on the map and the cell one step along `d` is closed.
    pub closed spec fn gate_site(&self, c: Coord, d: Coord) -> bool {
        &&& self.grid.spec_in_bounds(c)
        &&& self.grid.spec_cell(c).walkable
        &&& unit_step(d)
        &&& !self.grid.spec_cell(Coord { x: (c.x + d.x) as i32, y: (c.y + d.y) as i32 }).walkable
    }

    /// Whether `c` and the cells flanking it across `flank` are all closed.
    fn solid(&self, c: Coord, flank: Coord) -> (b: bool)
        requires
            self.inv(),
            self.grid.spec_in_bounds(c),
            -1 <= flank.x <= 1,
            -1 <= flank.y <= 1,
        ensures
            b == (!self.grid.spec_cell(c).walkable && !self.grid.spec_cell(
                Coord { x: (c.x + flank.x) as i32, y: (c.y + flank.y) as i32 },
            ).walkable && !self.grid.spec_cell(
                Coord { x: (c.x - flank.x) as i32, y: (c.y - flank.y) as i32 },
            ).walkable),
    {
        proof {
            self.grid.lemma_wf();
        }
        !self.grid.walkable(c) && !self.grid.walkable(Coord::new(c.x + flank.x, c.y + flank.y))
            && !self.grid.walkable(Coord::new(c.x - flank.x, c.y - flank.y))
    }

    /// Whether `c` and the cells on either side of it across `flank` are all
    /// rock.
    pub closed spec fn walled(&self, c: Coord, flank: Coord) -> bool {
        &&& !self.grid.spec_cell(c).walkable
        &&& !self.grid.spec_cell(Coord { x: (c.x + flank.x) as i32, y: (c.y + flank.y) as i32 }).walkable
        &&& !self.grid.spec_cell(Coord { x: (c.x - flank.x) as i32, y: (c.y - flank.y) as i32 }).walkable
    }

    /// The unit step across a passage running along `dir`.
    pub open spec fn flank_of(dir: Coord) -> Coord {
        Coord { x: (if dir.y < 0 { -dir.y } else { dir.y as int }) as i32, y: (if dir.x < 0 { -dir.x } else { dir.x as int }) as i32 }
    }

    /// Whether a gatehouse `len` cells long fits from `from` along `dir`:
    /// every passage cell is inside the ring, walled in rock and clear of
    /// gates, and the cell one beyond is an empty walled rock cell on the
    /// map, closed ahead and clear of gates.
    pub closed spec fn gatehouse_ok(&self, from: Coord, dir: Coord, len: int) -> bool {
        let flank = Sim::flank_of(dir);
        let gate = stepped(from, dir, len + 1);
        &&& forall|k: int| 1 <= k <= len ==> #[trigger] self.passage_ok(from, dir, k) && self.walled(stepped(from, dir, k), flank)
        &&& 0 <= along(from.x as int, dir.x as int, len + 1) < self.grid.spec_width()
        &&& 0 <= along(from.y as int, dir.y as int, len + 1) < self.grid.spec_height()
        &&& self.walled(gate, flank)
        &&& !self.grid.spec_cell(Coord { x: (gate.x + dir.x) as i32, y: (gate.y + dir.y) as i32 }).walkable
        &&& !self.touches_gate_spec(gate)
        &&& self.occupant(gate) is None
        &&& self.lying(gate) is None
    }

    /// One passage cell that does not fit rules the gatehouse out.
    proof fn lemma_gatehouse_fails_at(&self, from: Coord, dir: Coord, len: int, k: int)
        requires
            1 <= k <= len,
            !(self.passage_ok(from, dir, k) && self.walled(stepped(from, dir, k), Sim::flank_of(dir))),
        ensures
            !self.gatehouse_ok(from, dir, len),
    {
        if self.gatehouse_ok(from, dir, len) {
            assert(self.passage_ok(from, dir, k) && self.walled(stepped(from, dir, k), Sim::flank_of(dir)));
        }
    }

    /// Whether a gatehouse passage `len` cells long fits from `from` along
    /// `dir`: every cell of it inside the ring, rock down both flanks and
    /// clear of any gate; and one step beyond its end an empty rock cell,
    /// closed in on its remaining three sides and clear of any gate.
    #[verifier::rlimit(40)]
    fn gatehouse_fits(&self, from: Coord, dir: Coord, len: i32) -> (b: bool)
        requires
            self.inv(),
            self.grid.spec_in_bounds(from),
            unit_step(dir),
            GATEHOUSE_MIN <= len <= GATEHOUSE_MAX,
        ensures
            b == self.gatehouse_ok(from, dir, len as int),
            b ==> forall|k: int| 1 <= k <= len ==> #[trigger] self.passage_ok(from, dir, k),
            b ==> 0 <= along(from.x as int, dir.x as int, len + 1) < self.grid.spec_width() && 0 <= along(
                from.y as int,
                dir.y as int,
                len + 1,
            ) < self.grid.spec_height(),
            b ==> self.grid.spec_in_bounds(stepped(from, dir, len + 1)) && self.occupant(
                stepped(from, dir, len + 1),
            ) is None,
    {
        assert(-1 <= dir.x <= 1 && -1 <= dir.y <= 1);
        let flank = Coord::new(if dir.y < 0 { -dir.y } else { dir.y }, if dir.x < 0 { -dir.x } else { dir.x });
        let w = self.grid.width();
        let h = self.grid.height();
        let mut k: i32 = 1;
        while k <= len
            invariant
                self.inv(),
                w == self.grid.spec_width(),
                h == self.grid.spec_height(),
                self.grid.spec_in_bounds(from),
                unit_step(dir),
                -1 <= flank.x <= 1,
                -1 <= flank.y <= 1,
                GATEHOUSE_MIN <= len <= GATEHOUSE_MAX,
                -1 <= dir.x <= 1,
                -1 <= dir.y <= 1,
                1 <= k <= len + 1,
                forall|m: int| 1 <= m < k ==> #[trigger] self.passage_ok(from, dir, m),
                flank == Sim::flank_of(dir),
                forall|m: int| 1 <= m < k ==> #[trigger] self.passage_ok(from, dir, m) && self.walled(stepped(from, dir, m), flank),
            decreases len + 1 - k,
        {
            let cx: i64 = if dir.x > 0 { from.x as i64 + k as i64 } else if dir.x < 0 { from.x as i64 - k as i64 } else { from.x as i64 };
            let cy: i64 = if dir.y > 0 { from.y as i64 + k as i64 } else if dir.y < 0 { from.y as i64 - k as i64 } else { from.y as i64 };
            if !(cx > 0 && cy > 0 && cx < w as i64 - 1 && cy < h as i64 - 1) {
                proof {
                    assert(!self.passage_ok(from, dir, k as int));
                    self.lemma_gatehouse_fails_at(from, dir, len as int, k as int);
                }
                return false;
            }
            let c = Coord::new(cx as i32, cy as i32);
            assert(c == stepped(from, dir, k as int));
            if !self.solid(c, flank) || self.touches_gate(c) {
                proof {
                    assert(!(self.passage_ok(from, dir, k as int) && self.walled(stepped(from, dir, k as int), flank)));
                    self.lemma_gatehouse_fails_at(from, dir, len as int, k as int);
                }
                return false;
            }
            assert(self.walled(c, flank));
            assert(self.passage_ok(from, dir, k as int));
            assert(self.passage_ok(from, dir, k as int) && self.walled(stepped(from, dir, k as int), flank));
            assert forall|m: int| 1 <= m < k + 1 implies #[trigger] self.passage_ok(from, dir, m) && self.walled(
                stepped(from, dir, m),
                flank,
            ) by {
                if m < k {
                }
            }
            k = k + 1;
        }
        let reach = len as i64 + 1;
        let gx: i64 = if dir.x > 0 { from.x as i64 + reach } else if dir.x < 0 { from.x as i64 - reach } else { from.x as i64 };
        let gy: i64 = if dir.y > 0 { from.y as i64 + reach } else if dir.y < 0 { from.y as i64 - reach } else { from.y as i64 };
        if !(gx >= 0 && gy >= 0 && gx < w as i64 && gy < h as i64) {
            return false;
        }
        let gate = Coord::new(gx as i32, gy as i32);
        assert(gate == stepped(from, dir, len + 1));
        proof {
            self.grid.lemma_wf();
        }
        let ok = self.solid(gate, flank) && !self.grid.walkable(Coord::new(gate.x + dir.x, gate.y + dir.y))
            && !self.touches_gate(gate) && self.is_empty_cell(gate);
        ok
    }

    /// Cut one dead-end passage into the rock and seat a gate at the end of
    /// it, trying the longest passage first.
    ///
    /// Every cell of the passage has to be rock with rock down both flanks
    /// before it is cut, and the cell at its end must be closed in on all
    /// but the side the passage reaches. That leaves each finished gate with
    /// exactly one doorway, and stops a second passage from being dug
    /// alongside an existing one.
    fn dig_gatehouse(&mut self, from: Coord, dir: Coord) -> (r: bool)
        requires
            old(self).inv(),
            old(self).only_gates(),
            old(self).grid.spec_in_bounds(from),
            unit_step(dir),
        ensures
            final(self).inv(),
            final(self).only_gates(),
            !r ==> *final(self) == *old(self),
            r ==> final(self).cities@.len() == old(self).cities@.len() + 1,
            r == exists|len: int| GATEHOUSE_MIN <= len <= GATEHOUSE_MAX && #[trigger] old(self).gatehouse_ok(from, dir, len),
            final(self).npcs() <= old(self).npcs(),
            final(self).items == old(self).items,
            final(self).player_mass@ == old(self).player_mass@,
            final(self).grid.spec_width() == old(self).grid.spec_width(),
            final(self).grid.spec_height() == old(self).grid.spec_height(),
            final(self).phase == old(self).phase,
            final(self).rules == old(self).rules,
            final(self).depth@ == old(self).depth@,
            final(self).junctions@ == old(self).junctions@,
            final(self).rng == old(self).rng,
    {
        assert(-1 <= dir.x <= 1 && -1 <= dir.y <= 1);
        let mut len: i32 = GATEHOUSE_MAX;
        while len >= GATEHOUSE_MIN
            invariant
                self.inv(),
                self.only_gates(),
                *self == *old(self),
                self.grid.spec_in_bounds(from),
                unit_step(dir),
                -1 <= dir.x <= 1,
                -1 <= dir.y <= 1,
                GATEHOUSE_MIN - 1 <= len <= GATEHOUSE_MAX,
                forall|l: int| len < l <= GATEHOUSE_MAX ==> !#[trigger] self.gatehouse_ok(from, dir, l),
            decreases len,
        {
            if self.gatehouse_fits(from, dir, len) {
                assert(old(self).gatehouse_ok(from, dir, len as int));
                let ghost o = *self;

                let mut k: i32 = 1;
                while k <= len
                    invariant
                        self.inv(),
                        self.only_gates(),
                        self.actors == o.actors,
                        self.items == o.items,
                        self.player_mass == o.player_mass,
                        self.cities == o.cities,
                        self.phase == o.phase,
                        self.rules == o.rules,
                        self.depth == o.depth,
                        self.junctions == o.junctions,
                        self.rng == o.rng,
                        self.grid.spec_width() == o.grid.spec_width(),
                        self.grid.spec_height() == o.grid.spec_height(),
                        forall|c: Coord| #[trigger] self.occupant(c) == o.occupant(c),
                        o.inv(),
                        o.only_gates(),
                        o.grid.spec_in_bounds(from),
                        unit_step(dir),
                        GATEHOUSE_MIN <= len <= GATEHOUSE_MAX,
                        -1 <= dir.x <= 1,
                        -1 <= dir.y <= 1,
                        1 <= k <= len + 1,
                        forall|m: int| 1 <= m <= len ==> #[trigger] o.passage_ok(from, dir, m),
                        0 <= along(from.x as int, dir.x as int, len + 1) < o.grid.spec_width(),
                        0 <= along(from.y as int, dir.y as int, len + 1) < o.grid.spec_height(),
                        o.grid.spec_in_bounds(stepped(from, dir, len + 1)),
                        o.occupant(stepped(from, dir, len + 1)) is None,
                    decreases len + 1 - k,
                {
                    assert(o.passage_ok(from, dir, k as int));
                    proof {
                        o.grid.lemma_wf();
                    }
                    let cx = if dir.x > 0 { from.x + k } else if dir.x < 0 { from.x - k } else { from.x };
                    let cy = if dir.y > 0 { from.y + k } else if dir.y < 0 { from.y - k } else { from.y };
                    let c = Coord::new(cx, cy);
                    assert(c == stepped(from, dir, k as int));
                    proof {
                        assert(interior(o.grid, c) && !o.touches_gate_spec(c));
                        o.lemma_occupant_live(c);
                        if o.occupant(c) is Some {
                            let a = o.occupant(c)->0;
                            assert(o.live(a));
                            assert(o.actors@[a@ as int] is Some);
                            assert(o.gate_on(c));
                        }
                    }
                    let ghost before = *self;
                    self.set_props(c, true, true, false);
                    proof {
                        assert forall|d: Coord| #[trigger] self.occupant(d) == o.occupant(d) by {
                            assert(self.occupant(d) == before.occupant(d));
                        }
                    }
                    k = k + 1;
                }
                let reach = len + 1;
                proof {
                    o.grid.lemma_wf();
                }
                let gx = if dir.x > 0 { from.x + reach } else if dir.x < 0 { from.x - reach } else { from.x };
                let gy = if dir.y > 0 { from.y + reach } else if dir.y < 0 { from.y - reach } else { from.y };
                let gate = Coord::new(gx, gy);
                assert(gate == stepped(from, dir, len as int + 1));
                let ghost pre = *self;
                let id = self.add_actor(Kind::City, gate);
                proof {
                    assert forall|n: int| 0 <= n < self.actors@.len() && #[trigger] self.actors@[n] is Some implies is_city(
                        self.actors@[n]->0.kind,
                    ) by {
                        if n < pre.actors@.len() {
                            assert(self.actors@.drop_last()[n] == self.actors@[n]);
                        } else {
                            assert(n == id@);
                        }
                    }
                }
                return true;
            }
            len = len - 1;
        }
        false
    }
}


impl Sim {
    /// Every gate still standing is at least `gap` steps from `from`.
    fn far_from_gates(&self, from: Coord, gap: i32) -> (b: bool)
        requires
            self.inv(),
            self.grid.spec_in_bounds(from),
        ensures
            b == forall|k: int|
                0 <= k < self.cities@.len() && self.live(#[trigger] self.cities@[k]) ==> taxi_spec(
                    self.actor(self.cities@[k]).pos,
                    from,
                ) >= gap,
    {
        let mut k: usize = 0;
        while k < self.cities.len()
            invariant
                self.inv(),
                self.grid.spec_in_bounds(from),
                k <= self.cities@.len(),
                forall|m: int|
                    0 <= m < k && self.live(#[trigger] self.cities@[m]) ==> taxi_spec(
                        self.actor(self.cities@[m]).pos,
                        from,
                    ) >= gap,
            decreases self.cities@.len() - k,
        {
            let id = self.cities[k];
            match self.actors.get(id) {
                Some(a) => {
                    proof {
                        assert(self.live(id));
                        self.lemma_live_on_map(id);
                        self.grid.lemma_taxi_fits(a.pos, from);
                    }
                    if a.pos.taxi(from) < gap {
                        return false;
                    }
                },
                None => {},
            }
            k = k + 1;
        }
        true
    }

    /// Sink every gate into the rock at the end of its own passage, keeping
    /// them as far apart as the map allows: the candidate passages are
    /// shuffled and tried against a gap of a third of the map's short side,
    /// then a quarter, a sixth and a sixteenth, until the rules' count of
    /// gates stands. `false` means the map could not hold them all.
    fn place_gates(&mut self) -> (r: bool)
        requires
            old(self).inv(),
            old(self).only_gates(),
        ensures
            final(self).inv(),
            final(self).only_gates(),
            r ==> final(self).cities@.len() == old(self).cities@.len() + old(self).rules.num_cities,
            !r ==> final(self).cities@.len() < old(self).cities@.len() + old(self).rules.num_cities,
            final(self).npcs() <= old(self).npcs(),
            final(self).items == old(self).items,
            final(self).player_mass@ == old(self).player_mass@,
            final(self).grid.spec_width() == old(self).grid.spec_width(),
            final(self).grid.spec_height() == old(self).grid.spec_height(),
            final(self).phase == old(self).phase,
            final(self).rules == old(self).rules,
            final(self).depth@ == old(self).depth@,
            final(self).junctions@ == old(self).junctions@,
    {
        let wanted = self.rules.num_cities;
        let w = self.grid.width();
        let h = self.grid.height();
        let short = if w < h {
            w
        } else {
            h
        };
        let ghost o = *self;
        let mut placed: i32 = 0;
        let mut t: usize = 0;
        while t < GATE_GAP_TRIES
            invariant
                self.inv(),
                self.only_gates(),
                o == *old(self),
                wanted == o.rules.num_cities,
                wanted > 0,
                0 <= placed < wanted,
                self.npcs() <= o.npcs(),
                self.cities@.len() == o.cities@.len() + placed,
                self.items == o.items,
                self.player_mass@ == o.player_mass@,
                self.grid.spec_width() == o.grid.spec_width(),
                self.grid.spec_height() == o.grid.spec_height(),
                self.phase == o.phase,
                self.rules == o.rules,
                self.depth@ == o.depth@,
                self.junctions@ == o.junctions@,
            decreases GATE_GAP_TRIES - t,
        {
            let gap = short / gate_gap_share(t);
            let mut sites = self.gatehouse_sites();
            if sites.len() > 2147483647usize {
                return false;
            }
            let ghost before = sites@;
            shuffle(&mut self.rng, &mut sites);
            proof {
                before.to_multiset_ensures();
                sites@.to_multiset_ensures();
                assert forall|k: int| 0 <= k < sites@.len() implies self.grid.spec_in_bounds((#[trigger] sites@[k]).0)
                    && unit_step(sites@[k].1) by {
                    assert(sites@.contains(sites@[k]));
                    assert(sites@.to_multiset().count(sites@[k]) > 0);
                    assert(before.contains(sites@[k]));
                    let q = choose|q: int| 0 <= q < before.len() && before[q] == sites@[k];
                }
            }
            let mut k: usize = 0;
            while k < sites.len()
                invariant
                    self.inv(),
                    self.only_gates(),
                    o == *old(self),
                    wanted == o.rules.num_cities,
                    wanted > 0,
                    0 <= placed <= wanted,
                    self.npcs() <= o.npcs(),
                    self.cities@.len() == o.cities@.len() + placed,
                    self.items == o.items,
                    self.player_mass@ == o.player_mass@,
                    self.grid.spec_width() == o.grid.spec_width(),
                    self.grid.spec_height() == o.grid.spec_height(),
                    self.phase == o.phase,
                    self.rules == o.rules,
                    self.depth@ == o.depth@,
                    self.junctions@ == o.junctions@,
                    forall|m: int|
                        0 <= m < sites@.len() ==> self.grid.spec_in_bounds((#[trigger] sites@[m]).0) && unit_step(
                            sites@[m].1,
                        ),
                decreases sites@.len() - k,
            {
                if placed >= wanted {
                    return true;
                }
                let (from, dir) = sites[k];
                assert(self.grid.spec_in_bounds(sites@[k as int].0) && unit_step(sites@[k as int].1));
                if self.far_from_gates(from, gap) {
                    if self.dig_gatehouse(from, dir) {
                        placed = placed + 1;
                    }
                }
                k = k + 1;
            }
            if placed >= wanted {
                return true;
            }
            t = t + 1;
        }
        false
    }
}


/// How many cells no search has reached: the entries still holding the
/// `i32::MAX` sentinel.
pub open spec fn unmeasured(s: Seq<i32>) -> nat
    decreases s.len(),
{
    if s.len() == 0 {
        0
    } else {
        unmeasured(s.drop_last()) + (if s.last() == i32::MAX { 1nat } else { 0nat })
    }
}

/// Measuring one more cell leaves one fewer unmeasured.
pub proof fn lemma_unmeasured_set(s: Seq<i32>, i: int, v: i32)
    requires
        0 <= i < s.len(),
        s[i] == i32::MAX,
        v != i32::MAX,
    ensures
        unmeasured(s.update(i, v)) + 1 == unmeasured(s),
    decreases s.len(),
{
    let u = s.update(i, v);
    if i == s.len() - 1 {
        assert(u.drop_last() =~= s.drop_last());
    } else {
        assert(u.drop_last() =~= s.drop_last().update(i, v));
        lemma_unmeasured_set(s.drop_last(), i, v);
    }
}

/// There are no more unmeasured cells than cells.
pub proof fn lemma_unmeasured_le(s: Seq<i32>)
    ensures
        unmeasured(s) <= s.len(),
    decreases s.len(),
{
    if s.len() > 0 {
        lemma_unmeasured_le(s.drop_last());
    }
}

/// Rewriting a measured cell leaves the count alone.
pub proof fn lemma_unmeasured_keep(s: Seq<i32>, i: int, v: i32)
    requires
        0 <= i < s.len(),
        s[i] != i32::MAX,
        v != i32::MAX,
    ensures
        unmeasured(s.update(i, v)) == unmeasured(s),
    decreases s.len(),
{
    let u = s.update(i, v);
    if i == s.len() - 1 {
        assert(u.drop_last() =~= s.drop_last());
    } else {
        assert(u.drop_last() =~= s.drop_last().update(i, v));
        lemma_unmeasured_keep(s.drop_last(), i, v);
    }
}

/// The deepest measured value, or zero if nothing was reached.
pub open spec fn deepest(s: Seq<i32>) -> int
    decreases s.len(),
{
    if s.len() == 0 {
        0
    } else if s.last() != i32::MAX && s.last() > deepest(s.drop_last()) {
        s.last() as int
    } else {
        deepest(s.drop_last())
    }
}

impl Sim {
    /// Every doorway of a live gate: its open neighbours.
    pub closed spec fn doorway(&self, c: Coord) -> bool {
        exists|k: int|
            0 <= k < self.cities@.len() && self.live(#[trigger] self.cities@[k]) && self.grid.adjacent_spec(
                self.actor(self.cities@[k]).pos,
                true,
            ).contains(c)
    }

    /// Flood outward from every gate doorway and record how far each cell is
    /// from the nearest one.
    ///
    /// Rock and anything a gate cannot reach keep `i32::MAX`. Every doorway
    /// measures zero, and only open floor is ever measured.
    fn measure_depth(&mut self)
        requires
            old(self).inv(),
        ensures
            final(self).inv(),
            *final(self) == (Sim { depth: final(self).depth, ..*old(self) }),
            forall|c: Coord| #[trigger] final(self).doorway(c) ==> final(self).depth_of(c) == 0,
            forall|c: Coord|
                final(self).grid.spec_in_bounds(c) && #[trigger] final(self).depth_of(c) != i32::MAX
                    ==> final(self).grid.spec_cell(c).walkable && final(self).depth_of(c) >= 0,
    {
        let w = self.grid.width();
        let h = self.grid.height();
        let ghost wi = w as int;
        let cells = (w * h) as usize;
        let mut depth: Vec<i32> = super::repeat(i32::MAX, cells);
        let mut doors: Vec<Coord> = Vec::new();
        let mut k: usize = 0;
        while k < self.cities.len()
            invariant
                self.inv(),
                k <= self.cities@.len(),
                forall|m: int|
                    0 <= m < doors@.len() ==> self.grid.spec_in_bounds(#[trigger] doors@[m])
                        && self.grid.spec_cell(doors@[m]).walkable,
                forall|c: Coord|
                    (exists|j: int|
                        0 <= j < k && self.live(#[trigger] self.cities@[j]) && self.grid.adjacent_spec(
                            self.actor(self.cities@[j]).pos,
                            true,
                        ).contains(c)) ==> doors@.contains(c),
            decreases self.cities@.len() - k,
        {
            let id = self.cities[k];
            match self.actors.get(id) {
                Some(a) => {
                    let next = self.grid.adjacent_walkable(a.pos);
                    proof {
                        self.grid.lemma_adjacent_walkable_spec(a.pos);
                    }
                    let ghost d0 = doors@;
                    let mut m: usize = 0;
                    while m < next.len()
                        invariant
                            self.inv(),
                            next@ == self.grid.adjacent_spec(a.pos, true),
                            m <= next@.len(),
                            d0.len() <= doors@.len(),
                            forall|q: int| 0 <= q < d0.len() ==> doors@[q] == d0[q],
                            forall|q: int|
                                0 <= q < next@.len() ==> self.grid.spec_in_bounds(#[trigger] next@[q])
                                    && self.grid.spec_cell(next@[q]).walkable,
                            forall|q: int|
                                0 <= q < doors@.len() ==> self.grid.spec_in_bounds(#[trigger] doors@[q])
                                    && self.grid.spec_cell(doors@[q]).walkable,
                            forall|q: int| 0 <= q < m ==> doors@.contains(#[trigger] next@[q]),
                        decreases next@.len() - m,
                    {
                        let ghost before = doors@;
                        doors.push(next[m]);
                        proof {
                            assert forall|q: int| 0 <= q < m + 1 implies doors@.contains(#[trigger] next@[q]) by {
                                if q == m {
                                    assert(doors@[doors@.len() - 1] == next@[q]);
                                } else {
                                    let z = choose|z: int| 0 <= z < before.len() && before[z] == next@[q];
                                    assert(doors@[z] == next@[q]);
                                }
                            }
                        }
                        m = m + 1;
                    }
                    proof {
                        assert forall|c: Coord|
                            (exists|j: int|
                                0 <= j < k + 1 && self.live(#[trigger] self.cities@[j]) && self.grid.adjacent_spec(
                                    self.actor(self.cities@[j]).pos,
                                    true,
                                ).contains(c)) implies doors@.contains(c) by {
                            let j = choose|j: int|
                                0 <= j < k + 1 && self.live(#[trigger] self.cities@[j]) && self.grid.adjacent_spec(
                                    self.actor(self.cities@[j]).pos,
                                    true,
                                ).contains(c);
                            if j == k {
                                let q = choose|q: int| 0 <= q < next@.len() && next@[q] == c;
                                assert(doors@.contains(next@[q]));
                            } else {
                                assert(d0.contains(c));
                                let z = choose|z: int| 0 <= z < d0.len() && d0[z] == c;
                                assert(doors@[z] == c);
                            }
                        }
                    }
                },
                None => {
                    proof {
                        assert forall|c: Coord|
                            (exists|j: int|
                                0 <= j < k + 1 && self.live(#[trigger] self.cities@[j]) && self.grid.adjacent_spec(
                                    self.actor(self.cities@[j]).pos,
                                    true,
                                ).contains(c)) implies doors@.contains(c) by {
                            let j = choose|j: int|
                                0 <= j < k + 1 && self.live(#[trigger] self.cities@[j]) && self.grid.adjacent_spec(
                                    self.actor(self.cities@[j]).pos,
                                    true,
                                ).contains(c);
                            assert(j != k);
                        }
                    }
                },
            }
            k = k + 1;
        }
        let mut queue: std::collections::VecDeque<Coord> = std::collections::VecDeque::new();
        proof {
            lemma_unmeasured_le(depth@);
            assert forall|c: Coord|
                self.grid.spec_in_bounds(c) && #[trigger] depth@[super::flat_index(wi, c)] != i32::MAX implies self.grid.spec_cell(
                    c,
                ).walkable && 0 <= depth@[super::flat_index(wi, c)] < cells - unmeasured(depth@) by {
                super::lemma_flat_index(wi, h as int, c);
            }
        }
        let mut d: usize = 0;
        while d < doors.len()
            invariant
                self.inv(),
                w == self.grid.spec_width(),
                h == self.grid.spec_height(),
                wi == w,
                cells == w * h,
                depth@.len() == cells,
                d <= doors@.len(),
                forall|m: int|
                    0 <= m < doors@.len() ==> self.grid.spec_in_bounds(#[trigger] doors@[m])
                        && self.grid.spec_cell(doors@[m]).walkable,
                forall|m: int| 0 <= m < d ==> depth@[super::flat_index(wi, #[trigger] doors@[m])] == 0,
                forall|c: Coord|
                    self.grid.spec_in_bounds(c) && #[trigger] depth@[super::flat_index(wi, c)] != i32::MAX
                        ==> self.grid.spec_cell(c).walkable && 0 <= depth@[super::flat_index(wi, c)] < cells - unmeasured(depth@),
                forall|i: int| 0 <= i < depth@.len() && #[trigger] depth@[i] != i32::MAX ==> depth@[i] == 0,
                forall|q: int|
                    0 <= q < queue@.len() ==> self.grid.spec_in_bounds(#[trigger] queue@[q]) && depth@[super::flat_index(
                        wi,
                        queue@[q],
                    )] != i32::MAX,
            decreases doors@.len() - d,
        {
            let door = doors[d];
            assert(self.grid.spec_in_bounds(doors@[d as int]));
            proof {
                super::lemma_flat_index(wi, h as int, door);
                reveal(super::flat_index);
                self.grid.lemma_wf();
            }
            let i = (door.y * w + door.x) as usize;
            if depth[i] != 0 {
                let ghost d0 = depth@;
                proof {
                    lemma_unmeasured_le(d0);
                    if d0[i as int] == i32::MAX {
                        lemma_unmeasured_set(d0, i as int, 0);
                    } else {
                        lemma_unmeasured_keep(d0, i as int, 0);
                    }
                }
                depth.set(i, 0);
                queue.push_back(door);
                proof {
                    assert forall|c: Coord|
                        self.grid.spec_in_bounds(c) && #[trigger] depth@[super::flat_index(wi, c)] != i32::MAX
                            implies self.grid.spec_cell(c).walkable && 0 <= depth@[super::flat_index(wi, c)] < cells
                            - unmeasured(depth@) by {
                        super::lemma_flat_index(wi, h as int, c);
                        if c != door {
                            assert(super::flat_index(wi, c) != i);
                        }
                    }
                    assert forall|m: int| 0 <= m < d + 1 implies depth@[super::flat_index(wi, #[trigger] doors@[m])] == 0 by {
                        if m < d {
                            assert(d0[super::flat_index(wi, doors@[m])] == 0);
                            super::lemma_flat_index(wi, h as int, doors@[m]);
                        }
                    }
                    assert forall|q: int|
                        0 <= q < queue@.len() implies self.grid.spec_in_bounds(#[trigger] queue@[q]) && depth@[super::flat_index(
                            wi,
                            queue@[q],
                        )] != i32::MAX by {
                        if q < queue@.len() - 1 {
                            super::lemma_flat_index(wi, h as int, queue@[q]);
                        }
                    }
                }
            }
            d = d + 1;
        }
        proof {
            lemma_unmeasured_le(depth@);
        }
        while queue.len() > 0
            invariant
                self.inv(),
                w == self.grid.spec_width(),
                h == self.grid.spec_height(),
                wi == w,
                cells == w * h,
                depth@.len() == cells,
                forall|m: int|
                    0 <= m < doors@.len() ==> self.grid.spec_in_bounds(#[trigger] doors@[m])
                        && self.grid.spec_cell(doors@[m]).walkable,
                forall|m: int| 0 <= m < doors@.len() ==> depth@[super::flat_index(wi, #[trigger] doors@[m])] == 0,
                forall|c: Coord|
                    self.grid.spec_in_bounds(c) && #[trigger] depth@[super::flat_index(wi, c)] != i32::MAX
                        ==> self.grid.spec_cell(c).walkable && 0 <= depth@[super::flat_index(wi, c)] < cells - unmeasured(depth@),
                forall|q: int|
                    0 <= q < queue@.len() ==> self.grid.spec_in_bounds(#[trigger] queue@[q]) && depth@[super::flat_index(
                        wi,
                        queue@[q],
                    )] != i32::MAX,
            decreases unmeasured(depth@) + queue@.len(),
        {
            let at = match queue.pop_front() {
                Some(c) => c,
                None => {
                    break;
                },
            };
            proof {
                super::lemma_flat_index(wi, h as int, at);
                reveal(super::flat_index);
                self.grid.lemma_wf();
            }
            let ai = (at.y * w + at.x) as usize;
            let here = depth[ai];
            let next = self.grid.adjacent(at);
            proof {
                self.grid.lemma_adjacent_spec(at);
            }
            let ghost measure = unmeasured(depth@) + queue@.len();
            let mut m: usize = 0;
            while m < next.len()
                invariant
                    self.inv(),
                    w == self.grid.spec_width(),
                    h == self.grid.spec_height(),
                    wi == w,
                    cells == w * h,
                    depth@.len() == cells,
                    next@ == self.grid.adjacent_spec(at, false),
                    forall|q: int| 0 <= q < next@.len() ==> self.grid.spec_in_bounds(#[trigger] next@[q]),
                    0 <= here < cells - unmeasured(depth@),
                    unmeasured(depth@) + queue@.len() == measure,
                    forall|q: int|
                        0 <= q < doors@.len() ==> self.grid.spec_in_bounds(#[trigger] doors@[q])
                            && self.grid.spec_cell(doors@[q]).walkable,
                    forall|q: int| 0 <= q < doors@.len() ==> depth@[super::flat_index(wi, #[trigger] doors@[q])] == 0,
                    forall|c: Coord|
                        self.grid.spec_in_bounds(c) && #[trigger] depth@[super::flat_index(wi, c)] != i32::MAX
                            ==> self.grid.spec_cell(c).walkable && 0 <= depth@[super::flat_index(wi, c)] < cells
                            - unmeasured(depth@),
                    forall|q: int|
                        0 <= q < queue@.len() ==> self.grid.spec_in_bounds(#[trigger] queue@[q]) && depth@[super::flat_index(
                            wi,
                            queue@[q],
                        )] != i32::MAX,
                decreases next@.len() - m,
            {
                let n = next[m];
                assert(self.grid.spec_in_bounds(next@[m as int]));
                proof {
                    super::lemma_flat_index(wi, h as int, n);
                    reveal(super::flat_index);
                    self.grid.lemma_wf();
                }
                let ni = (n.y * w + n.x) as usize;
                if depth[ni] == i32::MAX && self.grid.walkable(n) {
                    let ghost d0 = depth@;
                    proof {
                        lemma_unmeasured_le(d0);
                        lemma_unmeasured_set(d0, ni as int, 0);
                        assert(here + 1 < i32::MAX);
                        lemma_unmeasured_set(d0, ni as int, (here + 1) as i32);
                    }
                    depth.set(ni, here + 1);
                    queue.push_back(n);
                    proof {
                        assert forall|c: Coord|
                            self.grid.spec_in_bounds(c) && #[trigger] depth@[super::flat_index(wi, c)] != i32::MAX
                                implies self.grid.spec_cell(c).walkable && 0 <= depth@[super::flat_index(wi, c)] < cells
                                - unmeasured(depth@) by {
                            super::lemma_flat_index(wi, h as int, c);
                            if c != n {
                                assert(super::flat_index(wi, c) != ni);
                            }
                        }
                        assert forall|q: int| 0 <= q < doors@.len() implies depth@[super::flat_index(wi, #[trigger] doors@[q])] == 0 by {
                            super::lemma_flat_index(wi, h as int, doors@[q]);
                            assert(d0[super::flat_index(wi, doors@[q])] == 0);
                        }
                        assert forall|q: int|
                            0 <= q < queue@.len() implies self.grid.spec_in_bounds(#[trigger] queue@[q]) && depth@[super::flat_index(
                                wi,
                                queue@[q],
                            )] != i32::MAX by {
                            if q < queue@.len() - 1 {
                                super::lemma_flat_index(wi, h as int, queue@[q]);
                            }
                        }
                    }
                }
                m = m + 1;
            }
        }
        self.depth = depth;
        proof {
            assert forall|c: Coord| #[trigger] self.doorway(c) implies self.depth_of(c) == 0 by {
                let j = choose|j: int|
                    0 <= j < self.cities@.len() && self.live(#[trigger] self.cities@[j]) && self.grid.adjacent_spec(
                        self.actor(self.cities@[j]).pos,
                        true,
                    ).contains(c);
                assert(doors@.contains(c));
                let z = choose|z: int| 0 <= z < doors@.len() && doors@[z] == c;
                assert(self.grid.spec_in_bounds(doors@[z]));
            }
        }
    }
}


/// How far from a chamber's middle the blob may be seeded, and how far a
/// chamber is searched for its deepest cell.
pub const START_SPREAD: i32 = 4;

/// `items` sorted by key, largest first; among equal keys, in the order
/// they came.
pub fn sort_desc(items: &Vec<(i32, Coord)>) -> (r: Vec<(i32, Coord)>)
    ensures
        r@.to_multiset() == items@.to_multiset(),
        forall|i: int, j: int| 0 <= i <= j < r@.len() ==> (#[trigger] r@[i]).0 >= (#[trigger] r@[j]).0,
{
    let mut out: Vec<(i32, Coord)> = Vec::new();
    let mut k: usize = 0;
    proof {
        assert(items@.take(0) =~= Seq::<(i32, Coord)>::empty());
        assert(out@ =~= Seq::<(i32, Coord)>::empty());
        out@.to_multiset_ensures();
        items@.take(0).to_multiset_ensures();
        assert(out@.to_multiset() =~= items@.take(0).to_multiset());
    }
    while k < items.len()
        invariant
            k <= items@.len(),
            out@.to_multiset() == items@.take(k as int).to_multiset(),
            forall|i: int, j: int| 0 <= i <= j < out@.len() ==> (#[trigger] out@[i]).0 >= (#[trigger] out@[j]).0,
        decreases items@.len() - k,
    {
        let x = items[k];
        let mut p: usize = 0;
        while p < out.len() && out[p].0 >= x.0
            invariant
                p <= out@.len(),
                forall|i: int| 0 <= i < p ==> (#[trigger] out@[i]).0 >= x.0,
            decreases out@.len() - p,
        {
            p = p + 1;
        }
        let ghost before = out@;
        out.insert(p, x);
        proof {
            vstd::seq_lib::to_multiset_insert(before, p as int, x);
            assert(items@.take(k + 1) == items@.take(k as int).push(x));
            items@.take(k as int).to_multiset_ensures();
            assert forall|i: int, j: int| 0 <= i <= j < out@.len() implies (#[trigger] out@[i]).0 >= (
            #[trigger] out@[j]).0 by {
                if p < before.len() {
                    assert(before[p as int].0 < x.0);
                }
                if i < p && j < p {
                    assert(out@[i] == before[i] && out@[j] == before[j]);
                } else if i < p && j == p {
                    assert(out@[i] == before[i]);
                } else if i < p && j > p {
                    assert(out@[i] == before[i] && out@[j] == before[j - 1]);
                } else if i == p && j > p {
                    assert(out@[j] == before[j - 1]);
                    assert(before[p as int].0 >= before[j - 1].0);
                } else if i > p {
                    assert(out@[i] == before[i - 1] && out@[j] == before[j - 1]);
                }
            }
        }
        k = k + 1;
    }
    proof {
        assert(items@.take(k as int) == items@);
    }
    out
}

impl Sim {
    /// The deepest measured cell anywhere, or zero.
    pub closed spec fn deepest_spec(&self) -> int {
        deepest(self.depth@)
    }

    /// The depth a share of the way from the gates to the deepest cell there
    /// is: the name of a band such as "out on the streets" or "down in the
    /// deep" that a wider map would not make wrong.
    fn depth_at_percent(&self, percent: i32) -> (r: i32)
        requires
            self.inv(),
            0 <= percent <= 100,
        ensures
            r == self.deepest_spec() * percent / 100,
            0 <= r <= self.deepest_spec(),
    {
        let mut best: i32 = 0;
        let mut k: usize = 0;
        while k < self.depth.len()
            invariant
                k <= self.depth@.len(),
                best == deepest(self.depth@.take(k as int)),
                0 <= best < i32::MAX,
            decreases self.depth@.len() - k,
        {
            let d = self.depth[k];
            proof {
                assert(self.depth@.take(k + 1).drop_last() == self.depth@.take(k as int));
            }
            if d != i32::MAX && d > best {
                best = d;
            }
            k = k + 1;
        }
        proof {
            assert(self.depth@.take(k as int) == self.depth@);
            assert(best as int * percent <= best as int * 100) by (nonlinear_arith)
                requires
                    0 <= best,
                    percent <= 100,
            ;
            assert(0 <= best as int * percent) by (nonlinear_arith)
                requires
                    0 <= best,
                    0 <= percent,
            ;
            vstd::arithmetic::div_mod::lemma_div_is_ordered(best as int * percent, best as int * 100, 100);
            vstd::arithmetic::div_mod::lemma_div_by_multiple(best as int, 100);
            assert(best as int * 100 == 100 * best as int) by (nonlinear_arith);
            vstd::arithmetic::div_mod::lemma_div_pos_is_pos(best as int * percent, 100);
        }
        (best as i64 * percent as i64 / 100) as i32
    }

    /// Whether `c` is open floor within the start spread of `hub` that a
    /// doorway reaches.
    pub closed spec fn measured_near(&self, hub: Coord, c: Coord) -> bool {
        &&& self.grid.spec_in_bounds(c)
        &&& taxi_spec(c, hub) <= START_SPREAD
        &&& self.grid.spec_cell(c).walkable
        &&& self.depth_of(c) != i32::MAX
    }

    /// The deepest cell a chamber reaches, measured over the same
    /// neighbourhood the blob can be seeded in; zero if none is measured.
    fn deepest_near(&self, hub: Coord) -> (r: i32)
        requires
            self.inv(),
        ensures
            r >= 0,
            forall|c: Coord| #[trigger] self.measured_near(hub, c) ==> self.depth_of(c) <= r,
            r == 0 || exists|c: Coord| #[trigger] self.measured_near(hub, c) && self.depth_of(c) == r,
    {
        let cells = self.grid.cells_in_diamond(hub, START_SPREAD);
        let mut best: i32 = 0;
        let mut k: usize = 0;
        while k < cells.len()
            invariant
                self.inv(),
                k <= cells@.len(),
                forall|i: int| 0 <= i < cells@.len() ==> self.grid.spec_in_bounds(#[trigger] cells@[i]) && taxi_spec(cells@[i], hub) <= START_SPREAD,
                best >= 0,
                forall|i: int| 0 <= i < k && #[trigger] self.measured_near(hub, cells@[i]) ==> self.depth_of(cells@[i]) <= best,
                best == 0 || exists|c: Coord| #[trigger] self.measured_near(hub, c) && self.depth_of(c) == best,
            decreases cells@.len() - k,
        {
            let c = cells[k];
            if self.grid.walkable(c) {
                let d = self.depth_at(c);
                if d != i32::MAX && d > best {
                    best = d;
                    assert(self.measured_near(hub, cells@[k as int]));
                }
            }
            k = k + 1;
        }
        proof {
            assert forall|c: Coord| #[trigger] self.measured_near(hub, c) implies self.depth_of(c) <= best by {
                assert(cells@.contains(c));
                let i = choose|i: int| 0 <= i < cells@.len() && cells@[i] == c;
                assert(self.measured_near(hub, cells@[i]));
            }
        }
        best
    }

    /// Every cell cut out of the rock that nothing stands on, in reading
    /// order.
    fn open_cells(&self) -> (r: Vec<Coord>)
        requires
            self.inv(),
        ensures
            forall|k: int| 0 <= k < r@.len() ==> self.grid.spec_in_bounds(#[trigger] r@[k]) && self.grid.spec_cell(r@[k]).walkable,
            forall|c: Coord| self.grid.spec_in_bounds(c) && self.grid.spec_cell(c).walkable ==> #[trigger] r@.contains(c),
            forall|i: int, j: int| 0 <= i < j < r@.len() ==> super::grid::row_major_before(#[trigger] r@[i], #[trigger] r@[j]),
            r@.len() <= i32::MAX,
    {
        proof {
            self.grid.lemma_wf();
        }
        let w = self.grid.width();
        let h = self.grid.height();
        let mut out: Vec<Coord> = Vec::new();
        let mut y: i32 = 0;
        while y < h
            invariant
                self.inv(),
                w == self.grid.spec_width(),
                h == self.grid.spec_height(),
                0 <= w,
                0 <= h,
                w * h <= i32::MAX,
                out@.len() <= y * w,
                0 <= y <= h,
                forall|k: int| 0 <= k < out@.len() ==> self.grid.spec_in_bounds(#[trigger] out@[k]) && self.grid.spec_cell(out@[k]).walkable && out@[k].y < y,
                forall|c: Coord| self.grid.spec_in_bounds(c) && c.y < y && self.grid.spec_cell(c).walkable ==> #[trigger] out@.contains(c),
                forall|i: int, j: int| 0 <= i < j < out@.len() ==> super::grid::row_major_before(#[trigger] out@[i], #[trigger] out@[j]),
            decreases h - y,
        {
            let mut x: i32 = 0;
            let ghost row0 = out@.len();
            while x < w
                invariant
                    self.inv(),
                    w == self.grid.spec_width(),
                    h == self.grid.spec_height(),
                    0 <= y < h,
                    0 <= x <= w,
                    0 <= w,
                    w * h <= i32::MAX,
                    out@.len() <= y * w + x,
                    row0 <= out@.len(),
                    forall|k: int| 0 <= k < row0 ==> (#[trigger] out@[k]).y < y,
                    forall|k: int| row0 <= k < out@.len() ==> (#[trigger] out@[k]).y == y && out@[k].x < x,
                    forall|k: int| 0 <= k < out@.len() ==> self.grid.spec_in_bounds(#[trigger] out@[k]) && self.grid.spec_cell(out@[k]).walkable && out@[k].y <= y,
                    forall|c: Coord| self.grid.spec_in_bounds(c) && (c.y < y || (c.y == y && c.x < x)) && self.grid.spec_cell(c).walkable ==> #[trigger] out@.contains(c),
                    forall|i: int, j: int| 0 <= i < j < out@.len() ==> super::grid::row_major_before(#[trigger] out@[i], #[trigger] out@[j]),
                decreases w - x,
            {
                let c = Coord::new(x, y);
                if self.grid.walkable(c) {
                    let ghost prev = out@;
                    out.push(c);
                    proof {
                        assert forall|i: int, j: int| 0 <= i < j < out@.len() implies super::grid::row_major_before(#[trigger] out@[i], #[trigger] out@[j]) by {
                            if j == out@.len() - 1 {
                                assert(out@[i] == prev[i]);
                                if i < row0 {
                                    assert(prev[i].y < y);
                                } else {
                                    assert(prev[i].y == y && prev[i].x < x);
                                }
                            } else {
                                assert(out@[i] == prev[i] && out@[j] == prev[j]);
                            }
                        }
                        assert forall|d: Coord| self.grid.spec_in_bounds(d) && (d.y < y || (d.y == y && d.x < x + 1)) && self.grid.spec_cell(d).walkable implies #[trigger] out@.contains(d) by {
                            if d == c {
                                assert(out@[out@.len() - 1] == c);
                            } else {
                                assert(prev.contains(d));
                                let q = choose|q: int| 0 <= q < prev.len() && prev[q] == d;
                                assert(out@[q] == d);
                            }
                        }
                    }
                }
                x = x + 1;
            }
            assert(y * w + w == (y + 1) * w) by (nonlinear_arith);
            y = y + 1;
        }
        assert(y * w <= w * h) by (nonlinear_arith)
            requires
                0 <= w,
                y <= h,
        ;
        out
    }
}


/// `s` is a connected blob of distinct cells grown from `from`: the first
/// cell is `from`, and every later one is open floor touching an earlier
/// one.
pub open spec fn grown_from(g: Grid, s: Seq<Coord>, from: Coord) -> bool {
    &&& s.len() >= 1
    &&& s[0] == from
    &&& forall|i: int, j: int| 0 <= i < j < s.len() ==> #[trigger] s[i] != #[trigger] s[j]
    &&& forall|k: int|
        1 <= k < s.len() ==> g.spec_in_bounds(#[trigger] s[k]) && g.spec_cell(s[k]).walkable && exists|j: int|
            0 <= j < k && taxi_spec(s[j], s[k]) == 1
}

/// `s` holds `count` distinct cells, each after the first one step from
/// an earlier one: a connected blob, whatever now stands on it.
pub open spec fn chained(s: Seq<Coord>, count: int) -> bool {
    &&& s.len() == count
    &&& forall|i: int, j: int| 0 <= i < j < s.len() ==> #[trigger] s[i] != #[trigger] s[j]
    &&& forall|k: int| 1 <= k < s.len() ==> exists|j: int| 0 <= j < k && taxi_spec(s[j], #[trigger] s[k]) == 1
}

/// A blob of exactly `count` cells grown from `from`.
pub open spec fn blob_ok(g: Grid, s: Seq<Coord>, from: Coord, count: int) -> bool {
    grown_from(g, s, from) && s.len() == count
}

/// No open cell on the map lies right beside the blob `s` without being in
/// it: `s` is the whole of the open ground it stands in.
pub open spec fn enclosed(g: Grid, s: Seq<Coord>) -> bool {
    forall|i: int, n: Coord|
        0 <= i < s.len() && g.spec_in_bounds(n) && g.spec_cell(n).walkable && #[trigger] taxi_spec(s[i], n) == 1
            ==> s.contains(n)
}

/// Every open cell right beside the blob `sel` is in it or on the frontier
/// `cand`.
pub open spec fn frontier_full(g: Grid, cand: Seq<Coord>, sel: Seq<Coord>) -> bool {
    forall|i: int, n: Coord|
        0 <= i < sel.len() && g.spec_in_bounds(n) && g.spec_cell(n).walkable && #[trigger] taxi_spec(sel[i], n) == 1
            ==> sel.contains(n) || cand.contains(n)
}

/// Moving frontier cell `index` into the blob and then adding every open
/// neighbour of it still outside keeps the frontier full.
pub proof fn lemma_frontier_full_step(g: Grid, c0: Seq<Coord>, s0: Seq<Coord>, index: int, after: Seq<Coord>)
    requires
        frontier_full(g, c0, s0),
        0 <= index < c0.len(),
        c0.len() - 1 <= after.len(),
        after.subrange(0, c0.len() - 1) == c0.remove(index),
        forall|n: Coord|
            g.spec_in_bounds(n) && g.spec_cell(n).walkable && taxi_spec(s0.push(c0[index])[s0.len() as int], n) == 1
                && !s0.push(c0[index]).contains(n) ==> #[trigger] after.contains(n),
    ensures
        frontier_full(g, after, s0.push(c0[index])),
{
    let sel = s0.push(c0[index]);
    let cr = c0.remove(index);
    assert forall|i: int, n: Coord|
        0 <= i < sel.len() && g.spec_in_bounds(n) && g.spec_cell(n).walkable && #[trigger] taxi_spec(sel[i], n) == 1
            implies sel.contains(n) || after.contains(n) by {
        if i == sel.len() - 1 {
            if !sel.contains(n) {
                assert(after.contains(n));
            }
        } else {
            assert(sel[i] == s0[i]);
            assert(s0.contains(n) || c0.contains(n));
            if s0.contains(n) {
                let z = choose|z: int| 0 <= z < s0.len() && s0[z] == n;
                assert(sel[z] == n);
            } else if n == c0[index] {
                assert(sel[sel.len() - 1] == n);
            } else {
                let z = choose|z: int| 0 <= z < c0.len() && c0[z] == n;
                let z2 = if z < index { z } else { z - 1 };
                assert(z != index);
                assert(cr[z2] == n);
                assert(after.subrange(0, c0.len() - 1)[z2] == n);
                assert(after[z2] == n);
            }
        }
    }
}

/// `cand` is a frontier of the blob `sel`: distinct open cells outside the
/// blob, each touching some cell of it.
pub open spec fn frontier_ok(g: Grid, cand: Seq<Coord>, sel: Seq<Coord>) -> bool {
    &&& forall|i: int, j: int| 0 <= i < j < cand.len() ==> #[trigger] cand[i] != #[trigger] cand[j]
    &&& forall|m: int|
        0 <= m < cand.len() ==> g.spec_in_bounds(#[trigger] cand[m]) && g.spec_cell(cand[m]).walkable
            && !sel.contains(cand[m])
    &&& forall|m: int| 0 <= m < cand.len() ==> touches_blob(sel, #[trigger] cand[m])
}

/// `c` is one step from some cell of the blob.
pub open spec fn touches_blob(sel: Seq<Coord>, c: Coord) -> bool {
    exists|j: int| 0 <= j < sel.len() && taxi_spec(#[trigger] sel[j], c) == 1
}

/// Moving one cell from the frontier into the blob keeps the blob sound.
pub proof fn lemma_pick_grown(g: Grid, cand: Seq<Coord>, sel: Seq<Coord>, from: Coord, index: int)
    requires
        grown_from(g, sel, from),
        frontier_ok(g, cand, sel),
        0 <= index < cand.len(),
    ensures
        grown_from(g, sel.push(cand[index]), from),
{
    let picked = cand[index];
    let t = sel.push(picked);
    assert(!sel.contains(picked));
    assert forall|i: int, j: int| 0 <= i < j < t.len() implies #[trigger] t[i] != #[trigger] t[j] by {
        if j == t.len() - 1 {
            assert(t[i] == sel[i]);
        } else {
            assert(t[i] == sel[i] && t[j] == sel[j]);
        }
    }
    assert forall|k: int|
        1 <= k < t.len() implies g.spec_in_bounds(#[trigger] t[k]) && g.spec_cell(t[k]).walkable && exists|j: int|
            0 <= j < k && taxi_spec(t[j], t[k]) == 1 by {
        if k == t.len() - 1 {
            assert(touches_blob(sel, cand[index]));
            let j = choose|j: int| 0 <= j < sel.len() && taxi_spec(#[trigger] sel[j], cand[index]) == 1;
            assert(t[j] == sel[j]);
        } else {
            assert(t[k] == sel[k]);
            let j = choose|j: int| 0 <= j < k && taxi_spec(sel[j], sel[k]) == 1;
            assert(t[j] == sel[j]);
        }
    }
}

/// Moving one cell from the frontier into the blob keeps the frontier
/// sound.
#[verifier::spinoff_prover]
pub proof fn lemma_pick_frontier(g: Grid, cand: Seq<Coord>, sel: Seq<Coord>, index: int)
    requires
        frontier_ok(g, cand, sel),
        0 <= index < cand.len(),
    ensures
        frontier_ok(g, cand.remove(index), sel.push(cand[index])),
{
    let picked = cand[index];
    let c = cand.remove(index);
    let t = sel.push(picked);
    assert forall|m: int| 0 <= m < c.len() implies g.spec_in_bounds(#[trigger] c[m]) && g.spec_cell(c[m]).walkable
        && !t.contains(c[m]) by {
        let om = if m < index { m } else { m + 1 };
        assert(c[m] == cand[om]);
        assert(cand[om] != cand[index]);
        assert(!sel.contains(cand[om]));
        if t.contains(c[m]) {
            let q = choose|q: int| 0 <= q < t.len() && t[q] == c[m];
            if q < sel.len() {
                assert(sel[q] == c[m]);
            }
        }
    }
    assert forall|m: int| 0 <= m < c.len() implies touches_blob(t, #[trigger] c[m]) by {
        let om = if m < index { m } else { m + 1 };
        assert(c[m] == cand[om]);
        assert(touches_blob(sel, cand[om]));
        let j = choose|j: int| 0 <= j < sel.len() && taxi_spec(#[trigger] sel[j], cand[om]) == 1;
        assert(t[j] == sel[j]);
    }
    assert forall|i: int, j: int| 0 <= i < j < c.len() implies #[trigger] c[i] != #[trigger] c[j] by {
        let oi = if i < index { i } else { i + 1 };
        let oj = if j < index { j } else { j + 1 };
        assert(c[i] == cand[oi] && c[j] == cand[oj]);
    }
}

/// Add to the frontier every open neighbour of the newest blob cell that is
/// neither in the blob nor already on the frontier.
fn extend_frontier(grid: &Grid, candidates: &mut Vec<Coord>, selection: &Vec<Coord>)
    requires
        grid.wf(),
        selection@.len() >= 1,
        frontier_ok(*grid, old(candidates)@, selection@),
    ensures
        frontier_ok(*grid, final(candidates)@, selection@),
        final(candidates)@.len() <= old(candidates)@.len() + 4,
        old(candidates)@.len() <= final(candidates)@.len(),
        final(candidates)@.subrange(0, old(candidates)@.len() as int) == old(candidates)@,
        forall|n: Coord|
            grid.spec_in_bounds(n) && grid.spec_cell(n).walkable && taxi_spec(selection@[selection@.len() - 1], n) == 1
                && !selection@.contains(n) ==> #[trigger] final(candidates)@.contains(n),
{
    let picked = selection[selection.len() - 1];
    let next = grid.adjacent_walkable(picked);
    proof {
        grid.lemma_adjacent_walkable_spec(picked);
        grid.lemma_adjacent_distinct(picked, true);
    }
    let ghost c1 = candidates@;
    let mut m: usize = 0;
    while m < next.len()
        invariant
            grid.wf(),
            next@ == grid.adjacent_spec(picked, true),
            next@.len() <= 4,
            forall|q: int|
                0 <= q < next@.len() ==> grid.spec_in_bounds(#[trigger] next@[q]) && taxi_spec(picked, next@[q]) == 1
                    && grid.spec_cell(next@[q]).walkable,
            m <= next@.len(),
            selection@.len() >= 1,
            selection@[selection@.len() - 1] == picked,
            candidates@.len() <= c1.len() + m,
            frontier_ok(*grid, candidates@, selection@),
            c1.len() <= candidates@.len(),
            candidates@.subrange(0, c1.len() as int) == c1,
            forall|q: int| 0 <= q < m && !selection@.contains(#[trigger] next@[q]) ==> candidates@.contains(next@[q]),
        decreases next@.len() - m,
    {
        let n = next[m];
        let ghost c0 = candidates@;
        if !holds(candidates, n) && !holds(selection, n) {
            let ghost c2 = candidates@;
            candidates.push(n);
            proof {
                assert(candidates@.subrange(0, c1.len() as int) =~= c2.subrange(0, c1.len() as int));
                assert(candidates@[candidates@.len() - 1] == n);
                assert forall|q: Coord| c2.contains(q) implies candidates@.contains(q) by {
                    let z = choose|z: int| 0 <= z < c2.len() && c2[z] == q;
                    assert(candidates@[z] == q);
                }
                assert forall|i: int, j: int| 0 <= i < j < candidates@.len() implies #[trigger] candidates@[i]
                    != #[trigger] candidates@[j] by {
                    if j == candidates@.len() - 1 {
                        assert(candidates@[i] == c2[i]);
                    } else {
                        assert(candidates@[i] == c2[i] && candidates@[j] == c2[j]);
                    }
                }
                assert forall|q: int| 0 <= q < candidates@.len() implies touches_blob(selection@, #[trigger] candidates@[q]) by {
                    if q == candidates@.len() - 1 {
                        assert(taxi_spec(selection@[selection@.len() - 1], candidates@[q]) == 1);
                    } else {
                        assert(candidates@[q] == c2[q]);
                    }
                }
                assert forall|q: int|
                    0 <= q < candidates@.len() implies grid.spec_in_bounds(#[trigger] candidates@[q])
                        && grid.spec_cell(candidates@[q]).walkable && !selection@.contains(candidates@[q]) by {
                    if q < candidates@.len() - 1 {
                        assert(candidates@[q] == c2[q]);
                    }
                }
            }
        }
        proof {
            assert forall|q: int| 0 <= q < m + 1 && !selection@.contains(#[trigger] next@[q]) implies candidates@.contains(next@[q]) by {
                if q < m {
                    assert(c0.contains(next@[q]));
                    let z = choose|z: int| 0 <= z < c0.len() && c0[z] == next@[q];
                    assert(candidates@[z] == next@[q]);
                }
            }
        }
        m = m + 1;
    }
    proof {
        assert forall|n: Coord|
            grid.spec_in_bounds(n) && grid.spec_cell(n).walkable && taxi_spec(selection@[selection@.len() - 1], n) == 1
                && !selection@.contains(n) implies #[trigger] candidates@.contains(n) by {
            assert(next@.contains(n));
            let q = choose|q: int| 0 <= q < next@.len() && next@[q] == n;
        }
    }
}

impl Sim {
    /// Randomised flood pick: grow a blob one uniformly chosen frontier cell
    /// at a time until it holds `count` cells, or run out of room.
    fn fluid_select(&mut self, from: Coord, count: usize) -> (r: Option<Vec<Coord>>)
        requires
            old(self).inv(),
            1 <= count <= 1000,
        ensures
            final(self).inv(),
            old(self).chance_only(&*final(self)),
            r matches Some(s) ==> blob_ok(old(self).grid, s@, from, count as int),
            r is None ==> exists|s: Seq<Coord>|
                grown_from(old(self).grid, s, from) && s.len() < count && #[trigger] enclosed(old(self).grid, s),
    {
        let ghost o = *self;
        let mut selection: Vec<Coord> = Vec::new();
        selection.push(from);
        let mut candidates = self.grid.adjacent_walkable(from);
        proof {
            self.grid.lemma_adjacent_walkable_spec(from);
            self.grid.lemma_adjacent_distinct(from, true);
            assert forall|m: int| 0 <= m < candidates@.len() implies !selection@.contains(#[trigger] candidates@[m]) by {
                if selection@.contains(candidates@[m]) {
                    let q = choose|q: int| 0 <= q < selection@.len() && selection@[q] == candidates@[m];
                    assert(selection@[q] == from);
                    assert(taxi_spec(from, candidates@[m]) == 1);
                }
            }
            assert forall|m: int| 0 <= m < candidates@.len() implies touches_blob(selection@, #[trigger] candidates@[m]) by {
                assert(selection@[0] == from);
                assert(taxi_spec(selection@[0], candidates@[m]) == 1);
            }
            assert(frontier_full(self.grid, candidates@, selection@)) by {
                assert forall|i: int, n: Coord|
                    0 <= i < selection@.len() && self.grid.spec_in_bounds(n) && self.grid.spec_cell(n).walkable
                        && #[trigger] taxi_spec(selection@[i], n) == 1 implies selection@.contains(n) || candidates@.contains(n) by {
                    assert(selection@[i] == from);
                }
            }
        }
        while selection.len() < count
            invariant
                self.inv(),
                o == *old(self),
                o.chance_only(&*self),
                1 <= count <= 1000,
                selection@.len() <= count,
                grown_from(self.grid, selection@, from),
                candidates@.len() <= 4 * selection@.len(),
                frontier_ok(self.grid, candidates@, selection@),
                frontier_full(self.grid, candidates@, selection@),
                self.grid == o.grid,
            decreases count - selection@.len(),
        {
            let index = match rand_index(&mut self.rng, candidates.len()) {
                Some(i) => i,
                None => {
                    proof {
                        assert(candidates@.len() == 0);
                        assert(enclosed(o.grid, selection@)) by {
                            assert forall|i: int, n: Coord|
                                0 <= i < selection@.len() && o.grid.spec_in_bounds(n) && o.grid.spec_cell(n).walkable
                                    && #[trigger] taxi_spec(selection@[i], n) == 1 implies selection@.contains(n) by {
                                assert(selection@.contains(n) || candidates@.contains(n));
                            }
                        }
                        assert(grown_from(o.grid, selection@, from) && selection@.len() < count);
                    }
                    return None;
                },
            };
            let ghost c0 = candidates@;
            let ghost s0 = selection@;
            proof {
                lemma_pick_grown(self.grid, c0, s0, from, index as int);
                lemma_pick_frontier(self.grid, c0, s0, index as int);
            }
            let picked = candidates.remove(index);
            selection.push(picked);
            assert(selection@ == s0.push(c0[index as int]));
            let ghost cr = candidates@;
            extend_frontier(&self.grid, &mut candidates, &selection);
            proof {
                lemma_frontier_full_step(self.grid, c0, s0, index as int, candidates@);
            }
        }
        Some(selection)
    }
}


/// Cells in the starting blob: two nuclei and four cytoplasm.
pub const START_MASS: usize = 6;
/// Chambers tried, deepest first, before the map is given up on.
pub const START_CHAMBERS: usize = 4;
/// Rejection-sampling budget for the starting blob.
pub const START_ATTEMPTS: i32 = 64;

/// What the `i`th cell of the starting blob holds: a nucleus at each end
/// and cytoplasm between.
pub open spec fn start_kind_spec(i: int) -> Kind {
    if i == 0 || i == START_MASS - 1 {
        Kind::Nucleus
    } else {
        Kind::Cytoplasm
    }
}

/// The executable form of [`start_kind_spec`].
pub fn start_kind(i: usize) -> (k: Kind)
    ensures
        k == start_kind_spec(i as int),
{
    if i == 0 || i == START_MASS - 1 {
        Kind::Nucleus
    } else {
        Kind::Cytoplasm
    }
}

impl Sim {
    /// The mass from `first` on is the blob laid out: the `i`th organelle
    /// stands on the blob's `i`th cell and is what [`start_kind_spec`] says.
    pub closed spec fn blob_at(&self, first: int, blob: Seq<Coord>, n: int) -> bool {
        &&& first + n <= self.player_mass@.len()
        &&& forall|i: int|
            0 <= i < n ==> {
                let id = #[trigger] self.player_mass@[first + i];
                &&& self.live(id)
                &&& self.actor(id).pos == blob[i]
                &&& self.actor(id).kind == start_kind_spec(i)
            }
    }

    /// Lay the starting organelles out on a blob of open cells, in order.
    fn place_blob(&mut self, blob: &Vec<Coord>) -> (first: ActorId)
        requires
            old(self).inv(),
            old(self).npcs() == 0,
            blob@.len() == START_MASS,
            forall|i: int, j: int| 0 <= i < j < blob@.len() ==> #[trigger] blob@[i] != #[trigger] blob@[j],
            forall|k: int|
                0 <= k < blob@.len() ==> old(self).grid.spec_in_bounds(#[trigger] blob@[k]) && old(self).grid.spec_cell(
                    blob@[k],
                ).walkable,
        ensures
            final(self).inv(),
            final(self).npcs() == 0,
            final(self).player_mass@.len() == old(self).player_mass@.len() + START_MASS,
            final(self).player_mass@.subrange(0, old(self).player_mass@.len() as int) == old(self).player_mass@,
            final(self).blob_at(old(self).player_mass@.len() as int, blob@, START_MASS as int),
            first == final(self).player_mass@[old(self).player_mass@.len() as int],
            final(self).items == old(self).items,
            final(self).cities@ == old(self).cities@,
            final(self).depth@ == old(self).depth@,
            final(self).junctions@ == old(self).junctions@,
            final(self).rules == old(self).rules,
            final(self).phase == old(self).phase,
            final(self).grid.spec_width() == old(self).grid.spec_width(),
            final(self).grid.spec_height() == old(self).grid.spec_height(),
    {
        let ghost o = *self;
        let ghost base = o.player_mass@.len() as int;
        proof {
            assert forall|k: int| 0 <= k < blob@.len() implies #[trigger] o.occupant(blob@[k]) is None by {
                o.lemma_occupant_live(blob@[k]);
                if o.occupant(blob@[k]) is Some {
                    o.lemma_live_on_map(o.occupant(blob@[k])->0);
                }
            }
        }
        let mut first: Option<ActorId> = None;
        let mut i: usize = 0;
        while i < START_MASS
            invariant
                self.inv(),
                self.npcs() == 0,
                base == o.player_mass@.len(),
                0 <= i <= START_MASS,
                blob@.len() == START_MASS,
                forall|a: int, b: int| 0 <= a < b < blob@.len() ==> #[trigger] blob@[a] != #[trigger] blob@[b],
                self.player_mass@.len() == base + i,
                self.player_mass@.subrange(0, base) == o.player_mass@,
                self.blob_at(base, blob@, i as int),
                i > 0 ==> first == Some(self.player_mass@[base]),
                forall|k: int|
                    i <= k < blob@.len() ==> self.grid.spec_in_bounds(#[trigger] blob@[k]) && self.occupant(blob@[k]) is None,
                self.items == o.items,
                self.cities@ == o.cities@,
                self.depth@ == o.depth@,
                self.junctions@ == o.junctions@,
                self.rules == o.rules,
                self.phase == o.phase,
                self.grid.spec_width() == o.grid.spec_width(),
                self.grid.spec_height() == o.grid.spec_height(),
            decreases START_MASS - i,
        {
            let ghost pre = *self;
            let at = blob[i];
            assert(self.grid.spec_in_bounds(blob@[i as int]) && self.occupant(blob@[i as int]) is None);
            let id = self.add_actor(start_kind(i), at);
            proof {
                assert(pre.arena()@ == self.arena()@.drop_last());
                assert forall|j: int| 0 <= j < i + 1 implies {
                    let x = #[trigger] self.player_mass@[base + j];
                    &&& self.live(x)
                    &&& self.actor(x).pos == blob@[j]
                    &&& self.actor(x).kind == start_kind_spec(j)
                } by {
                    if j < i {
                        let x = pre.player_mass@[base + j];
                        assert(self.player_mass@[base + j] == x);
                        assert(pre.live(x));
                        assert(self.actors@[x@ as int] == pre.actors@[x@ as int]);
                    } else {
                        assert(self.player_mass@[base + j] == id);
                    }
                }
                assert(self.player_mass@.subrange(0, base) =~= o.player_mass@) by {
                    assert forall|q: int| 0 <= q < base implies self.player_mass@[q] == o.player_mass@[q] by {
                        assert(self.player_mass@[q] == pre.player_mass@[q]);
                        assert(pre.player_mass@.subrange(0, base)[q] == o.player_mass@[q]);
                    }
                }
                assert forall|k: int|
                    i + 1 <= k < blob@.len() implies self.grid.spec_in_bounds(#[trigger] blob@[k]) && self.occupant(blob@[k]) is None by {
                    assert(blob@[k] != blob@[i as int]);
                    assert(self.occupant(blob@[k]) == pre.occupant(blob@[k]));
                }
                if i == 0 {
                    assert(self.player_mass@[base] == id);
                } else {
                    assert(self.player_mass@[base] == pre.player_mass@[base]);
                }
            }
            if i == 0 {
                first = Some(id);
            }
            i = i + 1;
        }
        first.unwrap()
    }
}


impl Sim {
    /// The chambers, shuffled and then ranked by how far into the deep each
    /// one reaches, deepest first (the shuffle settles ties).
    fn rank_hubs(&mut self) -> (r: Vec<Coord>)
        requires
            old(self).inv(),
            old(self).junctions@.len() <= i32::MAX,
        ensures
            final(self).inv(),
            old(self).chance_only(&*final(self)),
            r@.len() == old(self).junctions@.len(),
    {
        let mut hubs: Vec<Coord> = Vec::new();
        let mut k: usize = 0;
        while k < self.junctions.len()
            invariant
                k <= self.junctions@.len(),
                hubs@.len() == k,
            decreases self.junctions@.len() - k,
        {
            hubs.push(self.junctions[k]);
            k = k + 1;
        }
        shuffle(&mut self.rng, &mut hubs);
        let mut keyed: Vec<(i32, Coord)> = Vec::new();
        let mut m: usize = 0;
        while m < hubs.len()
            invariant
                self.inv(),
                m <= hubs@.len(),
                keyed@.len() == m,
            decreases hubs@.len() - m,
        {
            let hub = hubs[m];
            keyed.push((self.deepest_near(hub), hub));
            m = m + 1;
        }
        let ranked = sort_desc(&keyed);
        proof {
            ranked@.to_multiset_ensures();
            keyed@.to_multiset_ensures();
        }
        let mut out: Vec<Coord> = Vec::new();
        let mut q: usize = 0;
        while q < ranked.len()
            invariant
                q <= ranked@.len(),
                out@.len() == q,
            decreases ranked@.len() - q,
        {
            out.push(ranked[q].1);
            q = q + 1;
        }
        out
    }

    /// Where in a chamber the blob may be seeded: its open cells within the
    /// start spread, deepest first (ties in reading order), the deepest third
    /// of them and never fewer than one.
    fn seeds_near(&self, hub: Coord) -> (r: Vec<Coord>)
        requires
            self.inv(),
        ensures
            forall|k: int|
                0 <= k < r@.len() ==> self.grid.spec_in_bounds(#[trigger] r@[k]) && self.grid.spec_cell(r@[k]).walkable
                    && taxi_spec(r@[k], hub) <= START_SPREAD,
            forall|i: int, j: int|
                0 <= i <= j < r@.len() ==> self.depth_of(#[trigger] r@[i]) >= self.depth_of(#[trigger] r@[j]),
            forall|c: Coord|
                self.grid.spec_in_bounds(c) && #[trigger] self.grid.spec_cell(c).walkable && taxi_spec(c, hub)
                    <= START_SPREAD ==> r@.len() >= 1 && (r@.contains(c) || self.depth_of(c) <= self.depth_of(
                    r@[r@.len() - 1],
                )),
    {
        let cells = self.grid.cells_in_diamond(hub, START_SPREAD);
        let mut keyed: Vec<(i32, Coord)> = Vec::new();
        let mut k: usize = 0;
        while k < cells.len()
            invariant
                self.inv(),
                k <= cells@.len(),
                forall|i: int| 0 <= i < cells@.len() ==> self.grid.spec_in_bounds(#[trigger] cells@[i]) && taxi_spec(cells@[i], hub) <= START_SPREAD,
                forall|i: int|
                    0 <= i < keyed@.len() ==> self.grid.spec_in_bounds((#[trigger] keyed@[i]).1) && self.grid.spec_cell(
                        keyed@[i].1,
                    ).walkable && taxi_spec(keyed@[i].1, hub) <= START_SPREAD && keyed@[i].0 == self.depth_of(keyed@[i].1),
                forall|i: int|
                    0 <= i < k && self.grid.spec_cell(#[trigger] cells@[i]).walkable ==> keyed@.contains(
                        (self.depth_of(cells@[i]), cells@[i]),
                    ),
            decreases cells@.len() - k,
        {
            let c = cells[k];
            let ghost kb = keyed@;
            if self.grid.walkable(c) {
                keyed.push((self.depth_at(c), c));
                proof {
                    assert(keyed@[keyed@.len() - 1] == (self.depth_of(c), c));
                    assert forall|q: (i32, Coord)| kb.contains(q) implies keyed@.contains(q) by {
                        let m = choose|m: int| 0 <= m < kb.len() && kb[m] == q;
                        assert(keyed@[m] == q);
                    }
                }
            }
            k = k + 1;
        }
        let ranked = sort_desc(&keyed);
        proof {
            ranked@.to_multiset_ensures();
            keyed@.to_multiset_ensures();
            assert forall|i: int|
                0 <= i < ranked@.len() implies self.grid.spec_in_bounds((#[trigger] ranked@[i]).1) && self.grid.spec_cell(
                    ranked@[i].1,
                ).walkable && taxi_spec(ranked@[i].1, hub) <= START_SPREAD && ranked@[i].0 == self.depth_of(ranked@[i].1) by {
                assert(ranked@.contains(ranked@[i]));
                assert(ranked@.to_multiset().count(ranked@[i]) > 0);
                assert(keyed@.contains(ranked@[i]));
                let z = choose|z: int| 0 <= z < keyed@.len() && keyed@[z] == ranked@[i];
            }
        }
        let third = ranked.len() / 3;
        let keep = if third > 1 {
            third
        } else {
            1
        };
        let mut out: Vec<Coord> = Vec::new();
        let mut q: usize = 0;
        while q < ranked.len() && q < keep
            invariant
                q <= ranked@.len(),
                out@.len() == q,
                forall|i: int| 0 <= i < q ==> out@[i] == (#[trigger] ranked@[i]).1,
            decreases ranked@.len() - q,
        {
            out.push(ranked[q].1);
            q = q + 1;
        }
        proof {
            assert forall|c: Coord|
                self.grid.spec_in_bounds(c) && #[trigger] self.grid.spec_cell(c).walkable && taxi_spec(c, hub)
                    <= START_SPREAD implies out@.len() >= 1 && (out@.contains(c) || self.depth_of(c) <= self.depth_of(
                    out@[out@.len() - 1],
                )) by {
                assert(cells@.contains(c));
                let i = choose|i: int| 0 <= i < cells@.len() && cells@[i] == c;
                assert(self.grid.spec_cell(cells@[i]).walkable);
                let e = (self.depth_of(c), c);
                assert(keyed@.contains(e));
                assert(keyed@.to_multiset().count(e) > 0);
                assert(ranked@.contains(e));
                let z = choose|z: int| 0 <= z < ranked@.len() && ranked@[z] == e;
                assert(ranked@.len() >= 1);
                assert(out@.len() >= 1);
                if z < out@.len() {
                    assert(out@[z] == c);
                    assert(out@.contains(c));
                } else {
                    let last = out@.len() - 1;
                    assert(out@[last] == ranked@[last].1);
                    assert(ranked@[last].0 >= ranked@[z].0);
                    assert(ranked@[last].0 == self.depth_of(ranked@[last].1));
                }
            }
            assert forall|i: int, j: int| 0 <= i <= j < out@.len() implies self.depth_of(#[trigger] out@[i]) >= self.depth_of(
                #[trigger] out@[j],
            ) by {
                assert(out@[i] == ranked@[i].1 && out@[j] == ranked@[j].1);
                assert(ranked@[i].0 >= ranked@[j].0);
            }
            assert forall|k: int|
                0 <= k < out@.len() implies self.grid.spec_in_bounds(#[trigger] out@[k]) && self.grid.spec_cell(out@[k]).walkable
                    && taxi_spec(out@[k], hub) <= START_SPREAD by {
                assert(out@[k] == ranked@[k].1);
            }
        }
        out
    }

    /// Seed the player in the deepest chamber the map has: a blob of six
    /// adjacent cells holding a nucleus at each end and cytoplasm between,
    /// with the first nucleus in charge. Up to four chambers are tried,
    /// deepest first, each with a budget of attempts; `false` means none of
    /// them had room.
    fn place_starting_mass(&mut self) -> (r: bool)
        requires
            old(self).inv(),
            old(self).npcs() == 0,
            old(self).junctions@.len() <= i32::MAX,
        ensures
            final(self).inv(),
            r ==> final(self).player_mass@.len() == old(self).player_mass@.len() + START_MASS,
            r ==> exists|blob: Seq<Coord>|
                blob_ok(old(self).grid, blob, blob[0], START_MASS as int) && #[trigger] final(self).blob_at(
                    old(self).player_mass@.len() as int,
                    blob,
                    START_MASS as int,
                ),
            r ==> final(self).active == Some(final(self).player_mass@[old(self).player_mass@.len() as int]),
            !r ==> final(self).player_mass@ == old(self).player_mass@,
            final(self).items == old(self).items,
            final(self).phase == old(self).phase,
            final(self).rules == old(self).rules,
            final(self).grid.spec_width() == old(self).grid.spec_width(),
            final(self).grid.spec_height() == old(self).grid.spec_height(),
    {
        let ghost o = *self;
        let hubs = self.rank_hubs();
        let mut t: usize = 0;
        while t < hubs.len() && t < START_CHAMBERS
            invariant
                self.inv(),
                o.chance_only(&*self),
                o == *old(self),
                o.npcs() == 0,
            decreases hubs@.len() - t,
        {
            let hub = hubs[t];
            let seeds = self.seeds_near(hub);
            let mut attempt: i32 = 0;
            while attempt < START_ATTEMPTS
                invariant
                    self.inv(),
                    o.chance_only(&*self),
                    o == *old(self),
                    o.npcs() == 0,
                    forall|k: int|
                        0 <= k < seeds@.len() ==> self.grid.spec_in_bounds(#[trigger] seeds@[k])
                            && self.grid.spec_cell(seeds@[k]).walkable,
                decreases START_ATTEMPTS - attempt,
            {
                let seed = match self.pick(seeds.as_slice()) {
                    Some(c) => c,
                    None => {
                        break;
                    },
                };
                proof {
                    let z = choose|z: int| 0 <= z < seeds@.len() && seeds@[z] == seed;
                    assert(self.grid.spec_in_bounds(seeds@[z]));
                }
                match self.fluid_select(seed, START_MASS) {
                    None => {},
                    Some(blob) => {
                        proof {
                            assert(self.npcs() == o.npcs());
                            assert forall|k: int| 0 <= k < blob@.len() implies self.grid.spec_in_bounds(#[trigger] blob@[k])
                                && self.grid.spec_cell(blob@[k]).walkable by {
                                if k == 0 {
                                    assert(blob@[0] == seed);
                                }
                            }
                        }
                        let first = self.place_blob(&blob);
                        let ghost placed = *self;
                        self.set_active_nucleus(first);
                        proof {
                            assert(placed.blob_at(o.player_mass@.len() as int, blob@, START_MASS as int));
                            assert(self.blob_at(o.player_mass@.len() as int, blob@, START_MASS as int)) by {
                                assert forall|i: int| 0 <= i < START_MASS implies {
                                    let id = #[trigger] self.player_mass@[o.player_mass@.len() + i];
                                    &&& self.live(id)
                                    &&& self.actor(id).pos == blob@[i]
                                    &&& self.actor(id).kind == start_kind_spec(i)
                                } by {
                                    let id = placed.player_mass@[o.player_mass@.len() + i];
                                    assert(placed.live(id));
                                    assert(placed.actors@[id@ as int] is Some);
                                }
                            }
                            assert(blob_ok(o.grid, blob@, blob@[0], START_MASS as int));
                            let id0 = placed.player_mass@[o.player_mass@.len() as int + 0];
                            assert(placed.live(id0));
                            assert(o.player_mass@.len() + 0 == o.player_mass@.len() as int);
                        }
                        return true;
                    },
                }
                attempt = attempt + 1;
            }
            t = t + 1;
        }
        false
    }
}


/// Nutrients scattered.
pub const FOOD_AMT: i32 = 32;
/// DNA scattered.
pub const DNA_AMT: i32 = 5;
/// Barbed wire scattered.
pub const WIRE_AMT: i32 = 8;
/// Plants scattered.
pub const PLANT_AMT: i32 = 8;
/// Nearest steps of open floor from a doorway a coil of wire is dropped.
pub const WIRE_NEAR: i32 = 2;
/// Furthest steps of open floor from a doorway a coil of wire is dropped.
pub const WIRE_FAR: i32 = 5;
/// Fewest nutrients in one cache.
pub const CACHE_MIN: i32 = 3;
/// Most nutrients in one cache.
pub const CACHE_MAX: i32 = 5;
/// How far a cache's contents spill from its middle.
pub const CACHE_SPREAD: i32 = 2;
/// How far apart two caches are kept.
pub const CACHE_GAP: i32 = 6;
/// The share of the way to the deepest cell where the caches begin.
pub const CACHE_BAND_LOW: i32 = 25;
/// The share of the way to the deepest cell where the caches end.
pub const CACHE_BAND_HIGH: i32 = 70;
/// The share of the way to the deepest cell that counts as the deep.
pub const DEEP_BAND: i32 = 60;
/// Whole maps to throw away before giving up and playing the last one.
pub const MAP_ATTEMPTS: u32 = 64;

impl Sim {
    /// `other` differs from this world in what lies on the floor and in the
    /// generator at most: nobody moved and the rock is where it was.
    pub closed spec fn floor_keeps(&self, other: &Sim) -> bool {
        &&& other.actors == self.actors
        &&& other.grid == self.grid
        &&& other.player_mass@ == self.player_mass@
        &&& other.phase == self.phase
        &&& other.schedule == self.schedule
        &&& other.cities@ == self.cities@
        &&& other.depth@ == self.depth@
        &&& other.rules == self.rules
    }

    /// Drop up to `amount` items of one kind on the first cells of `spots`
    /// with nothing on them.
    fn scatter(&mut self, spots: &Vec<Coord>, kind: ItemKind, amount: i32)
        requires
            old(self).inv(),
        ensures
            final(self).inv(),
            old(self).floor_keeps(&*final(self)),
            old(self).floor()@.len() <= final(self).floor()@.len() <= old(self).floor()@.len() + (if amount > 0 {
                amount as int
            } else {
                0
            }),
            final(self).floor()@.subrange(0, old(self).floor()@.len() as int) == old(self).floor()@,
            forall|j: int|
                old(self).floor()@.len() <= j < final(self).floor()@.len() ==> (#[trigger] final(self).floor()@[j] matches Some(
                    it,
                ) && it.kind == kind && spots@.contains(it.pos) && old(self).occupant(it.pos) is None),
            final(self).floor()@.len() < old(self).floor()@.len() + amount ==> forall|k: int|
                0 <= k < spots@.len() && old(self).map().spec_in_bounds(spots@[k]) && old(self).occupant(spots@[k]) is None
                    && old(self).lying(spots@[k]) is None ==> (#[trigger] final(self).lying(spots@[k])) is Some,
    {
        let ghost o = *self;
        let mut left = amount;
        let mut k: usize = 0;
        while k < spots.len()
            invariant
                self.inv(),
                o == *old(self),
                o.floor_keeps(&*self),
                k <= spots@.len(),
                o.floor()@.len() <= self.floor()@.len(),
                left == amount - (self.floor()@.len() - o.floor()@.len()),
                self.floor()@.len() - o.floor()@.len() <= (if amount > 0 { amount as int } else { 0 }),
                self.floor()@.subrange(0, o.floor()@.len() as int) == o.floor()@,
                forall|j: int|
                    o.floor()@.len() <= j < self.floor()@.len() ==> (#[trigger] self.floor()@[j] matches Some(it)
                        && it.kind == kind && spots@.contains(it.pos) && o.occupant(it.pos) is None),
                forall|c: Coord| #[trigger] self.occupant(c) == o.occupant(c),
                forall|c: Coord| o.lying(c) is Some ==> (#[trigger] self.lying(c)) is Some,
                forall|j: int|
                    0 <= j < k && o.map().spec_in_bounds(spots@[j]) && o.occupant(spots@[j]) is None ==> (
                    #[trigger] self.lying(spots@[j])) is Some,
            decreases spots@.len() - k,
        {
            if left <= 0 {
                return ;
            }
            let spot = spots[k];
            if self.is_empty_cell(spot) {
                let ghost b = *self;
                if self.add_item(kind, spot).is_some() {
                    proof {
                        assert(spots@[k as int] == spot);
                        assert(spots@.contains(spot));
                        assert(self.floor()@.subrange(0, o.floor()@.len() as int) =~= b.floor()@.subrange(
                            0,
                            o.floor()@.len() as int,
                        ));
                        assert forall|j: int|
                            o.floor()@.len() <= j < self.floor()@.len() implies (#[trigger] self.floor()@[j] matches Some(
                                it,
                            ) && it.kind == kind && spots@.contains(it.pos) && o.occupant(it.pos) is None) by {
                            if j < b.floor()@.len() {
                                assert(self.floor()@[j] == b.floor()@[j]);
                            }
                        }
                        assert forall|c: Coord| o.lying(c) is Some implies (#[trigger] self.lying(c)) is Some by {
                            if c != spot {
                                assert(self.lying(c) == b.lying(c));
                            }
                        }
                        assert forall|j: int|
                            0 <= j < k + 1 && o.map().spec_in_bounds(spots@[j]) && o.occupant(spots@[j]) is None implies (
                            #[trigger] self.lying(spots@[j])) is Some by {
                            if spots@[j] != spot {
                                assert(self.lying(spots@[j]) == b.lying(spots@[j]));
                            }
                        }
                    }
                    left = left - 1;
                }
            }
            k = k + 1;
        }
    }

    /// Barbed wire, in a ring outside each gate: for each coil, a gate in
    /// turn and an empty open cell picked from those two to five steps of
    /// floor out from its doorway.
    fn fortify_gates(&mut self)
        requires
            old(self).inv(),
        ensures
            final(self).inv(),
            old(self).floor_keeps(&*final(self)),
    {
        let ghost o = *self;
        let mut gates: Vec<ActorId> = Vec::new();
        let mut k: usize = 0;
        while k < self.cities.len()
            invariant
                k <= self.cities@.len(),
                gates@.len() == k,
            decreases self.cities@.len() - k,
        {
            gates.push(self.cities[k]);
            k = k + 1;
        }
        if gates.len() == 0 || gates.len() > 2147483647usize {
            return ;
        }
        shuffle(&mut self.rng, &mut gates);
        let mut i: i32 = 0;
        while i < WIRE_AMT
            invariant
                self.inv(),
                o == *old(self),
                o.floor_keeps(&*self),
                gates@.len() > 0,
            decreases WIRE_AMT - i,
        {
            let gate = gates[(i as usize) % gates.len()];
            let door = match self.actors.get(gate) {
                Some(a) => {
                    let next = self.grid.adjacent_walkable(a.pos);
                    if next.len() > 0 {
                        Some(next[0])
                    } else {
                        None
                    }
                },
                None => None,
            };
            match door {
                Some(d) => {
                    let cells = self.grid.cells_in_diamond(d, WIRE_FAR * 2);
                    let mut spots: Vec<Coord> = Vec::new();
                    let mut m: usize = 0;
                    while m < cells.len()
                        invariant
                            self.inv(),
                            m <= cells@.len(),
                            spots@.len() <= m,
                        decreases cells@.len() - m,
                    {
                        let c = cells[m];
                        let depth = self.depth_at(c);
                        if WIRE_NEAR <= depth && depth <= WIRE_FAR && self.grid.walkable(c) && self.is_empty_cell(c) {
                            spots.push(c);
                        }
                        m = m + 1;
                    }
                    match self.pick(spots.as_slice()) {
                        Some(spot) => {
                            self.add_item(ItemKind::BarbedWire, spot);
                        },
                        None => {},
                    }
                },
                None => {},
            }
            i = i + 1;
        }
    }

    /// Nutrients in caches out along the streets rather than one at a time
    /// everywhere; whatever the band had no room for goes wherever there is
    /// room.
    fn stock_caches(&mut self)
        requires
            old(self).inv(),
        ensures
            final(self).inv(),
            old(self).floor_keeps(&*final(self)),
    {
        let ghost o = *self;
        let low = self.depth_at_percent(CACHE_BAND_LOW);
        let high = self.depth_at_percent(CACHE_BAND_HIGH);
        let open = self.open_cells();
        let mut sites: Vec<Coord> = Vec::new();
        let mut k: usize = 0;
        while k < open.len()
            invariant
                self.inv(),
                k <= open@.len(),
                open@.len() <= i32::MAX,
                sites@.len() <= k,
                forall|m: int| 0 <= m < open@.len() ==> self.grid.spec_in_bounds(#[trigger] open@[m]),
                forall|m: int| 0 <= m < sites@.len() ==> self.grid.spec_in_bounds(#[trigger] sites@[m]),
            decreases open@.len() - k,
        {
            let c = open[k];
            let d = self.depth_at(c);
            if low <= d && d <= high {
                sites.push(c);
            }
            k = k + 1;
        }
        let ghost before = sites@;
        shuffle(&mut self.rng, &mut sites);
        proof {
            before.to_multiset_ensures();
            sites@.to_multiset_ensures();
            assert forall|m: int| 0 <= m < sites@.len() implies self.grid.spec_in_bounds(#[trigger] sites@[m]) by {
                assert(sites@.to_multiset().count(sites@[m]) > 0);
                assert(before.contains(sites@[m]));
                let z = choose|z: int| 0 <= z < before.len() && before[z] == sites@[m];
            }
        }
        let mut left: i32 = FOOD_AMT;
        let mut caches: Vec<Coord> = Vec::new();
        let mut s: usize = 0;
        while s < sites.len()
            invariant
                self.inv(),
                o == *old(self),
                o.floor_keeps(&*self),
                0 <= left <= FOOD_AMT,
                forall|m: int| 0 <= m < sites@.len() ==> self.grid.spec_in_bounds(#[trigger] sites@[m]),
                forall|m: int| 0 <= m < caches@.len() ==> self.grid.spec_in_bounds(#[trigger] caches@[m]),
            decreases sites@.len() - s,
        {
            if left <= 0 {
                break;
            }
            let site = sites[s];
            assert(self.grid.spec_in_bounds(sites@[s as int]));
            let mut crowded = false;
            let mut c: usize = 0;
            while c < caches.len()
                invariant
                    self.inv(),
                    self.grid.spec_in_bounds(site),
                    forall|m: int| 0 <= m < caches@.len() ==> self.grid.spec_in_bounds(#[trigger] caches@[m]),
                decreases caches@.len() - c,
            {
                assert(self.grid.spec_in_bounds(caches@[c as int]));
                proof {
                    self.grid.lemma_taxi_fits(caches@[c as int], site);
                }
                if caches[c].taxi(site) < CACHE_GAP {
                    crowded = true;
                }
                c = c + 1;
            }
            if self.is_empty_cell(site) && !crowded {
                caches.push(site);
                let roll = rand_inclusive(&mut self.rng, CACHE_MIN, CACHE_MAX);
                let size = if roll < left {
                    roll
                } else {
                    left
                };
                let cells = self.grid.cells_in_diamond(site, CACHE_SPREAD);
                let mut spots: Vec<Coord> = Vec::new();
                let mut m: usize = 0;
                while m < cells.len()
                    invariant
                        self.inv(),
                        m <= cells@.len(),
                        spots@.len() <= m,
                    decreases cells@.len() - m,
                {
                    let cc = cells[m];
                    if self.grid.walkable(cc) && self.is_empty_cell(cc) {
                        spots.push(cc);
                    }
                    m = m + 1;
                }
                if spots.len() > 2147483647usize {
                    break;
                }
                shuffle(&mut self.rng, &mut spots);
                let mut q: usize = 0;
                while q < spots.len() && q < size as usize
                    invariant
                        self.inv(),
                        o == *old(self),
                        o.floor_keeps(&*self),
                        q <= spots@.len(),
                        0 <= size,
                        q <= size || left >= 0,
                        left >= size - q,
                        0 <= left <= FOOD_AMT,
                    decreases spots@.len() - q,
                {
                    self.add_item(ItemKind::Nutrient, spots[q]);
                    left = left - 1;
                    q = q + 1;
                }
            }
            s = s + 1;
        }
        let mut spare = self.open_cells();
        shuffle(&mut self.rng, &mut spare);
        let mut t: usize = 0;
        while t < spare.len()
            invariant
                self.inv(),
                o == *old(self),
                o.floor_keeps(&*self),
                0 <= left <= FOOD_AMT,
            decreases spare@.len() - t,
        {
            if left <= 0 {
                break;
            }
            let spot = spare[t];
            if self.is_empty_cell(spot) {
                self.add_item(ItemKind::Nutrient, spot);
                left = left - 1;
            }
            t = t + 1;
        }
    }

    /// Plants and DNA, both down in the deep: plants on any deep cell, DNA
    /// in the dead ends of the deep first.
    fn seed_the_deep(&mut self)
        requires
            old(self).inv(),
        ensures
            final(self).inv(),
            old(self).floor_keeps(&*final(self)),
    {
        let ghost o = *self;
        let far = self.depth_at_percent(DEEP_BAND);
        let open = self.open_cells();
        let mut deep: Vec<Coord> = Vec::new();
        let mut k: usize = 0;
        while k < open.len()
            invariant
                self.inv(),
                k <= open@.len(),
                open@.len() <= i32::MAX,
                deep@.len() <= k,
            decreases open@.len() - k,
        {
            let c = open[k];
            let d = self.depth_at(c);
            if d >= far && d != i32::MAX {
                deep.push(c);
            }
            k = k + 1;
        }
        shuffle(&mut self.rng, &mut deep);
        let mut ends: Vec<Coord> = Vec::new();
        let mut m: usize = 0;
        while m < deep.len()
            invariant
                self.inv(),
                m <= deep@.len(),
            decreases deep@.len() - m,
        {
            let c = deep[m];
            let next = self.grid.adjacent(c);
            let mut open_sides: usize = 0;
            let mut q: usize = 0;
            while q < next.len()
                invariant
                    self.inv(),
                    q <= next@.len(),
                    open_sides <= q,
                decreases next@.len() - q,
            {
                if !self.is_wall(next[q]) {
                    open_sides = open_sides + 1;
                }
                q = q + 1;
            }
            if open_sides <= 1 {
                ends.push(c);
            }
            m = m + 1;
        }
        let mut r: usize = 0;
        while r < deep.len()
            invariant
                r <= deep@.len(),
            decreases deep@.len() - r,
        {
            ends.push(deep[r]);
            r = r + 1;
        }
        self.scatter(&ends, ItemKind::Dna, DNA_AMT);
        self.scatter(&deep, ItemKind::Plant, PLANT_AMT);
    }

    /// Everything on the floor, each kind placed for its own reason.
    fn place_features(&mut self)
        requires
            old(self).inv(),
        ensures
            final(self).inv(),
            old(self).floor_keeps(&*final(self)),
    {
        self.fortify_gates();
        self.stock_caches();
        self.seed_the_deep();
    }

    /// One generation attempt on a bare rock map of the rules' size.
    /// `false` means the map is unusable.
    fn try_generate(&mut self) -> (r: bool)
        requires
            old(self).inv(),
            old(self).bare(),
            old(self).grid.spec_width() == old(self).rules.map_width,
            old(self).grid.spec_height() == old(self).rules.map_height,
        ensures
            final(self).inv(),
            final(self).phase == old(self).phase,
            final(self).rules == old(self).rules,
            final(self).grid.spec_width() == old(self).grid.spec_width(),
            final(self).grid.spec_height() == old(self).grid.spec_height(),
            r ==> final(self).player_mass@.len() == START_MASS,
            r ==> exists|blob: Seq<Coord>| chained(blob, START_MASS as int) && #[trigger] final(self).blob_at(
                0,
                blob,
                START_MASS as int,
            ),
    {
        let ghost o = *self;
        let sites = sites(&self.grid, &mut self.rng);
        if sites.len() < SITES_MIN {
            return false;
        }
        let ghost g0 = self.grid;
        let mut k: usize = 0;
        while k < sites.len()
            invariant
                g0.wf(),
                *self == (Sim { grid: self.grid, rng: self.rng, ..o }),
                sites@.len() <= g0.spec_width() * g0.spec_height(),
                carved_from(g0, self.grid),
                g0.spec_width() == o.grid.spec_width(),
                g0.spec_height() == o.grid.spec_height(),
                o.grid.spec_width() >= 48,
                o.grid.spec_height() >= 48,
                forall|m: int| 0 <= m < sites@.len() ==> site_ok(g0, #[trigger] sites@[m]),
            decreases sites@.len() - k,
        {
            let ghost before = self.grid;
            assert(site_ok(g0, sites@[k as int]));
            carve_chamber(&mut self.grid, &mut self.rng, sites[k]);
            proof {
                lemma_carved_trans(g0, before, self.grid);
            }
            k = k + 1;
        }
        proof {
            assert forall|m: int| 0 <= m < sites@.len() implies interior(self.grid, #[trigger] sites@[m]) by {
                assert(site_ok(g0, sites@[m]));
            }
        }
        carve_passages(&mut self.grid, &mut self.rng, &sites);
        erode(&mut self.grid, &mut self.rng);
        connect_pockets(&mut self.grid);
        plant_pillars(&mut self.grid, &mut self.rng);
        proof {
            o.lemma_bare_regrid(&*self);
            g0.lemma_wf();
        }
        let mut junctions: Vec<Coord> = Vec::new();
        let mut j: usize = 0;
        while j < sites.len()
            invariant
                self.inv(),
                j <= sites@.len(),
                junctions@.len() == j,
                sites@.len() <= i32::MAX,
            decreases sites@.len() - j,
        {
            junctions.push(on_open_ground(&self.grid, sites[j]));
            j = j + 1;
        }
        self.junctions = junctions;
        proof {
            assert(self.only_gates());
            assert(self.npcs() == 0) by {
                assert(self.actors@.len() == 0);
            }
        }
        if !self.place_gates() {
            return false;
        }
        self.measure_depth();
        let ghost before_mass = *self;
        if !self.place_starting_mass() {
            return false;
        }
        let ghost placed = *self;
        self.place_features();
        proof {
            let blob = choose|blob: Seq<Coord>|
                blob_ok(before_mass.grid, blob, blob[0], START_MASS as int) && #[trigger] placed.blob_at(
                    0,
                    blob,
                    START_MASS as int,
                );
            assert(placed.blob_at(0, blob, START_MASS as int));
            assert(self.blob_at(0, blob, START_MASS as int));
            assert(chained(blob, START_MASS as int));
        }
        true
    }
}


impl Sim {
    /// Build a fresh map, retrying from a derived seed if a map comes out
    /// unusable, then light what the mass can see.
    ///
    /// The run's reported seed does not change: a derived seed is a private
    /// detail of generation, so a given seed still reproduces a given run.
    fn generate(&mut self)
        requires
            old(self).inv(),
        ensures
            final(self).inv(),
            final(self).phase == old(self).phase,
            final(self).rules == old(self).rules,
            final(self).grid.spec_width() == old(self).rules.map_width,
            final(self).grid.spec_height() == old(self).rules.map_height,
    {
        let ghost o = *self;
        let mut seed = self.seed;
        let mut attempt: u32 = 0;
        while attempt < MAP_ATTEMPTS
            invariant
                self.inv(),
                self.phase == o.phase,
                self.rules == o.rules,
                attempt > 0 ==> self.grid.spec_width() == o.rules.map_width && self.grid.spec_height()
                    == o.rules.map_height,
            ensures
                self.inv(),
                self.phase == o.phase,
                self.rules == o.rules,
                self.grid.spec_width() == o.rules.map_width,
                self.grid.spec_height() == o.rules.map_height,
            decreases MAP_ATTEMPTS - attempt,
        {
            self.reset_world();
            if self.try_generate() {
                break;
            }
            seed = seed.wrapping_mul(6_364_136_223_846_793_005).wrapping_add(1_442_695_040_888_963_407);
            self.rng = super::rng_with_seed(seed);
            attempt = attempt + 1;
        }
        self.update_player_fov();
    }

    /// Generate a map for `difficulty` and hand over to play: the phase
    /// becomes playing, the messages panel opens and the controls are
    /// printed. Building the cavern is not news, so no effect survives it.
    pub fn start(&mut self, difficulty: Difficulty)
        requires
            old(self).inv(),
        ensures
            final(self).inv(),
            final(self).phase_spec() == Phase::Playing,
            final(self).effects_spec().len() == 0,
            final(self).rules_spec() == rules_of(difficulty),
            final(self).map().spec_width() == rules_of(difficulty).map_width,
            final(self).map().spec_height() == rules_of(difficulty).map_height,
    {
        self.difficulty = difficulty;
        self.rules = difficulty.rules();
        self.cities_destroyed = 0;
        self.phase = Phase::Playing;
        self.mode = UiMode::Messages;
        self.generate();
        self.write_help();
        self.effects.clear();
    }
}


/// Carving never touches the map's outer ring: every cell outside the
/// interior reads back exactly as it did before.
pub proof fn law_carving_spares_the_border(a: Grid, b: Grid, c: Coord)
    requires
        carved_from(a, b),
        !interior(a, c),
    ensures
        b.spec_cell(c) == a.spec_cell(c),
{
}

/// Planting pillars never touches the map's outer ring either, and never
/// opens anything: whatever was closed stays closed.
pub proof fn law_pillars_spare_the_border(a: Grid, b: Grid, c: Coord)
    requires
        pillared_from(a, b),
    ensures
        !interior(a, c) ==> b.spec_cell(c) == a.spec_cell(c),
        !a.spec_cell(c).walkable ==> b.spec_cell(c) == a.spec_cell(c),
{
}

/// Carving only opens: whatever was open floor stays open floor.
pub proof fn law_carving_only_opens(a: Grid, b: Grid, c: Coord)
    requires
        carved_from(a, b),
        a.spec_cell(c).walkable,
    ensures
        b.spec_cell(c).walkable,
{
}

impl Sim {
    /// Wherever an actor stands, the index names it there and the cell
    /// cannot be walked onto: occupancy and walkability agree.
    pub proof fn law_occupancy_and_walkability_agree(&self, id: ActorId)
        requires
            self.inv(),
            self.live(id),
        ensures
            self.map().spec_in_bounds(self.actor(id).pos),
            self.occupant(self.actor(id).pos) == Some(id),
            !self.map().spec_cell(self.actor(id).pos).walkable,
    {
        self.lemma_live_on_map(id);
    }
}

} // verus!
