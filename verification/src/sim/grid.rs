//! The map grid, its field of view, and the geometry the rest of the sim is
//! built out of.
//!
//! Sight stops each cast line at *taxicab* radius, so a field of view is a
//! diamond and not a circle. Randomness enters only through
//! [`rand_inclusive`], which is inclusive on both ends: `rand_inclusive(0, 3)
//! == 0` is one chance in four.

use std::collections::VecDeque;

use fastrand::Rng;
use vstd::prelude::*;

verus! {

/// An integer map coordinate.
#[derive(Clone, Copy, PartialEq, Eq, Structural, Hash, Debug, Default, PartialOrd, Ord)]
pub struct Coord {
    /// Column, increasing rightwards.
    pub x: i32,
    /// Row, increasing downwards.
    pub y: i32,
}

/// Absolute value over the integers.
pub open spec fn iabs(v: int) -> int {
    if v < 0 {
        -v
    } else {
        v
    }
}

/// Manhattan distance between two coordinates.
pub open spec fn taxi_spec(a: Coord, b: Coord) -> int {
    iabs(a.x - b.x) + iabs(a.y - b.y)
}

/// The coordinate with the given integer components. Only meaningful when
/// both fit an `i32`.
pub open spec fn coord_at(x: int, y: int) -> Coord {
    Coord { x: x as i32, y: y as i32 }
}

/// Whether an integer fits an `i32`.
pub open spec fn fits_i32(v: int) -> bool {
    i32::MIN <= v <= i32::MAX
}

impl Coord {
    /// A coordinate at `(x, y)`.
    pub fn new(x: i32, y: i32) -> (c: Self)
        ensures
            c.x == x,
            c.y == y,
    {
        Self { x, y }
    }

    /// Manhattan distance. The game measures every radius this way.
    pub fn taxi(self, other: Self) -> (d: i32)
        requires
            taxi_spec(self, other) <= i32::MAX,
        ensures
            d == taxi_spec(self, other),
    {
        let dx = self.x as i64 - other.x as i64;
        let dy = self.y as i64 - other.y as i64;
        let ax = if dx < 0 {
            -dx
        } else {
            dx
        };
        let ay = if dy < 0 {
            -dy
        } else {
            dy
        };
        (ax + ay) as i32
    }

    /// Whether the two coordinates share an edge.
    pub fn adjacent_to(self, other: Self) -> (b: bool)
        requires
            taxi_spec(self, other) <= i32::MAX,
        ensures
            b == (taxi_spec(self, other) == 1),
    {
        self.taxi(other) == 1
    }
}

/// The four directions anything ever moves in. There are no diagonals.
#[derive(Clone, Copy, PartialEq, Eq, Structural, Hash, Debug)]
pub enum Dir {
    /// Toward row zero.
    Up,
    /// Away from row zero.
    Down,
    /// Toward column zero.
    Left,
    /// Away from column zero.
    Right,
}

/// The one-cell offset each direction moves by.
pub open spec fn dir_offset(d: Dir) -> Coord {
    match d {
        Dir::Up => Coord { x: 0, y: -1i32 },
        Dir::Down => Coord { x: 0, y: 1 },
        Dir::Left => Coord { x: -1i32, y: 0 },
        Dir::Right => Coord { x: 1, y: 0 },
    }
}

impl Dir {
    /// The one-cell offset this direction moves by.
    pub fn offset(self) -> (c: Coord)
        ensures
            c == dir_offset(self),
            taxi_spec(c, Coord { x: 0, y: 0 }) == 1,
    {
        match self {
            Self::Up => Coord::new(0, -1),
            Self::Down => Coord::new(0, 1),
            Self::Left => Coord::new(-1, 0),
            Self::Right => Coord::new(1, 0),
        }
    }
}

/// One map cell.
///
/// Walkability is mutable and doubles as occupancy: placing an actor clears
/// it. Transparency is set once by the generator and never touched again,
/// which is why actors never block line of sight.
#[derive(Clone, Copy, Debug, Default, PartialEq, Eq, Structural)]
pub struct Cell {
    /// Something can stand here.
    pub walkable: bool,
    /// Light passes through here.
    pub transparent: bool,
    /// The player has seen this cell at least once. Sticky.
    pub explored: bool,
    /// This cell is in the current field of view.
    pub in_fov: bool,
}

/// Solid, opaque, unexplored rock: what every cell starts as and what
/// anything off the map reads back as.
pub open spec fn rock() -> Cell {
    Cell { walkable: false, transparent: false, explored: false, in_fov: false }
}

/// The map: a flat row-major grid of [`Cell`]s.
///
/// Anything outside the grid reads back as solid, opaque, unexplored rock, so
/// callers can probe past the edge without bounds dances.
#[derive(Clone, Debug)]
pub struct Grid {
    width: i32,
    height: i32,
    cells: Vec<Cell>,
}

/// The flat index of `(x, y)` on a map `width` columns wide.
#[verifier::opaque]
pub open spec fn flat_index(width: int, c: Coord) -> int {
    c.y * width + c.x
}

/// Every in-bounds cell has an index inside the backing store, and distinct
/// cells have distinct indices.
pub proof fn lemma_flat_index(width: int, height: int, c: Coord)
    requires
        0 <= c.x < width,
        0 <= c.y < height,
    ensures
        0 <= flat_index(width, c) < width * height,
        flat_index(width, c) % width == c.x,
        flat_index(width, c) / width == c.y,
        coord_of(width, flat_index(width, c)) == c,
{
    reveal(flat_index);
    reveal(coord_of);
    assert(0 <= c.y * width) by (nonlinear_arith)
        requires
            0 <= c.y,
            0 <= width,
    ;
    assert(c.y * width + c.x < width * height) by (nonlinear_arith)
        requires
            0 <= c.x < width,
            0 <= c.y < height,
    ;
    vstd::arithmetic::div_mod::lemma_fundamental_div_mod_converse(
        flat_index(width, c),
        width,
        c.y as int,
        c.x as int,
    );
}

impl Grid {
    /// The backing store holds exactly one cell per coordinate.
    pub closed spec fn wf(&self) -> bool {
        &&& 0 <= self.width
        &&& 0 <= self.height
        &&& self.width * self.height <= i32::MAX
        &&& self.cells@.len() == self.width * self.height
    }

    /// A sound map has a size, and its cell count fits an `i32`.
    pub proof fn lemma_wf(&self)
        requires
            self.wf(),
        ensures
            0 <= self.spec_width() <= i32::MAX,
            0 <= self.spec_height() <= i32::MAX,
            self.spec_width() * self.spec_height() <= i32::MAX,
    {
    }

    /// Off the map everything reads as rock.
    pub proof fn lemma_off_map(&self, c: Coord)
        ensures
            !self.spec_in_bounds(c) ==> self.spec_cell(c) == rock(),
    {
    }

    /// Number of columns, as a specification value.
    pub closed spec fn spec_width(&self) -> int {
        self.width as int
    }

    /// Number of rows, as a specification value.
    pub closed spec fn spec_height(&self) -> int {
        self.height as int
    }

    /// Whether `c` names a real cell.
    pub open spec fn spec_in_bounds(&self, c: Coord) -> bool {
        0 <= c.x < self.spec_width() && 0 <= c.y < self.spec_height()
    }

    /// The cell at `c`, or rock off the map.
    pub closed spec fn spec_cell(&self, c: Coord) -> Cell {
        if self.spec_in_bounds(c) {
            self.cells@[flat_index(self.width as int, c)]
        } else {
            rock()
        }
    }

    /// Same size, and every cell other than `c` unchanged.
    pub open spec fn same_but(&self, other: &Grid, c: Coord) -> bool {
        &&& other.wf()
        &&& other.spec_width() == self.spec_width()
        &&& other.spec_height() == self.spec_height()
        &&& forall|d: Coord| d != c ==> #[trigger] other.spec_cell(d) == self.spec_cell(d)
    }

    /// A grid of solid, opaque, unexplored rock.
    pub fn new(width: i32, height: i32) -> (g: Self)
        requires
            (if width > 0 { width as int } else { 0 }) * (if height > 0 { height as int } else { 0 })
                <= i32::MAX,
        ensures
            g.wf(),
            g.spec_width() == (if width > 0 { width as int } else { 0 }),
            g.spec_height() == (if height > 0 { height as int } else { 0 }),
            forall|c: Coord| #[trigger] g.spec_cell(c) == rock(),
    {
        let w = if width > 0 { width } else { 0 };
        let h = if height > 0 { height } else { 0 };
        let len = (w * h) as usize;
        let mut cells: Vec<Cell> = Vec::new();
        while cells.len() < len
            invariant
                cells.len() <= len,
                forall|i: int| 0 <= i < cells.len() ==> #[trigger] cells@[i] == rock(),
            decreases len - cells.len(),
        {
            cells.push(Cell { walkable: false, transparent: false, explored: false, in_fov: false });
        }
        let g = Self { width: w, height: h, cells };
        assert forall|c: Coord| #[trigger] g.spec_cell(c) == rock() by {
            if g.spec_in_bounds(c) {
                lemma_flat_index(w as int, h as int, c);
            }
        }
        g
    }

    /// Number of columns.
    pub fn width(&self) -> (w: i32)
        requires
            self.wf(),
        ensures
            w == self.spec_width(),
            0 <= w,
            self.spec_width() * self.spec_height() <= i32::MAX,
    {
        self.width
    }

    /// Number of rows.
    pub fn height(&self) -> (h: i32)
        requires
            self.wf(),
        ensures
            h == self.spec_height(),
            0 <= h,
            self.spec_width() * self.spec_height() <= i32::MAX,
    {
        self.height
    }

    /// Whether a coordinate names a real cell.
    pub fn in_bounds(&self, c: Coord) -> (b: bool)
        ensures
            b == self.spec_in_bounds(c),
    {
        c.x >= 0 && c.y >= 0 && c.x < self.width && c.y < self.height
    }

    /// Flat index of an in-bounds coordinate.
    fn index(&self, c: Coord) -> (i: usize)
        requires
            self.wf(),
            self.spec_in_bounds(c),
        ensures
            i == flat_index(self.spec_width(), c),
            i < self.cells@.len(),
    {
        proof {
            lemma_flat_index(self.width as int, self.height as int, c);
            reveal(flat_index);
        }
        (c.y * self.width + c.x) as usize
    }

    /// The cell at `c`, or solid rock if `c` is off the map.
    pub fn cell(&self, c: Coord) -> (r: Cell)
        requires
            self.wf(),
        ensures
            r == self.spec_cell(c),
    {
        if self.in_bounds(c) {
            self.cells[self.index(c)]
        } else {
            Cell { walkable: false, transparent: false, explored: false, in_fov: false }
        }
    }

    /// Whether something can stand at `c`.
    pub fn walkable(&self, c: Coord) -> (b: bool)
        requires
            self.wf(),
        ensures
            b == self.spec_cell(c).walkable,
    {
        self.cell(c).walkable
    }

    /// Whether light passes through `c`.
    pub fn transparent(&self, c: Coord) -> (b: bool)
        requires
            self.wf(),
        ensures
            b == self.spec_cell(c).transparent,
    {
        self.cell(c).transparent
    }

    /// Whether the player has ever seen `c`.
    pub fn explored(&self, c: Coord) -> (b: bool)
        requires
            self.wf(),
        ensures
            b == self.spec_cell(c).explored,
    {
        self.cell(c).explored
    }

    /// Whether `c` is lit by the current field of view.
    pub fn in_fov(&self, c: Coord) -> (b: bool)
        requires
            self.wf(),
        ensures
            b == self.spec_cell(c).in_fov,
    {
        self.cell(c).in_fov
    }

    /// Replace the cell at an in-bounds coordinate.
    fn put(&mut self, c: Coord, cell: Cell)
        requires
            old(self).wf(),
            old(self).spec_in_bounds(c),
        ensures
            old(self).same_but(&*final(self), c),
            final(self).spec_cell(c) == cell,
    {
        let i = self.index(c);
        self.cells.set(i, cell);
        proof {
            assert forall|d: Coord| d != c implies #[trigger] self.spec_cell(d) == old(self).spec_cell(d) by {
                if self.spec_in_bounds(d) {
                    lemma_flat_index(self.width as int, self.height as int, d);
                    lemma_flat_index(self.width as int, self.height as int, c);
                    assert(flat_index(self.width as int, d) != flat_index(self.width as int, c));
                }
            }
        }
    }

    /// Set all three persistent flags at once, the way the generator does.
    /// Off the map this does nothing.
    pub fn set_props(&mut self, c: Coord, transparent: bool, walkable: bool, explored: bool)
        requires
            old(self).wf(),
        ensures
            old(self).same_but(&*final(self), c),
            final(self).spec_cell(c) == (if old(self).spec_in_bounds(c) {
                Cell { transparent, walkable, explored, in_fov: old(self).spec_cell(c).in_fov }
            } else {
                rock()
            }),
    {
        if self.in_bounds(c) {
            let old_cell = self.cell(c);
            self.put(c, Cell { transparent, walkable, explored, in_fov: old_cell.in_fov });
        }
    }

    /// Occupancy: actors clear this and leave transparency alone.
    pub fn set_walkable(&mut self, c: Coord, walkable: bool)
        requires
            old(self).wf(),
        ensures
            old(self).same_but(&*final(self), c),
            final(self).spec_cell(c) == (if old(self).spec_in_bounds(c) {
                Cell { walkable, ..old(self).spec_cell(c) }
            } else {
                rock()
            }),
    {
        if self.in_bounds(c) {
            let old_cell = self.cell(c);
            self.put(c, Cell { walkable, ..old_cell });
        }
    }

    /// Mark a cell as seen, or as forgotten.
    pub fn set_explored(&mut self, c: Coord, explored: bool)
        requires
            old(self).wf(),
        ensures
            old(self).same_but(&*final(self), c),
            final(self).spec_cell(c) == (if old(self).spec_in_bounds(c) {
                Cell { explored, ..old(self).spec_cell(c) }
            } else {
                rock()
            }),
    {
        if self.in_bounds(c) {
            let old_cell = self.cell(c);
            self.put(c, Cell { explored, ..old_cell });
        }
    }
}


/// Whether `a` comes before `b` in row-major order.
pub open spec fn row_major_before(a: Coord, b: Coord) -> bool {
    a.y < b.y || (a.y == b.y && a.x < b.x)
}

impl Grid {
    /// `[(x, y)]` if that names a real cell (and, when `walkable_only`, one
    /// something could step onto), otherwise nothing.
    pub open spec fn keep_if(&self, x: int, y: int, walkable_only: bool) -> Seq<Coord> {
        if 0 <= x < self.spec_width() && 0 <= y < self.spec_height() && (!walkable_only
            || self.spec_cell(coord_at(x, y)).walkable) {
            seq![coord_at(x, y)]
        } else {
            Seq::empty()
        }
    }

    /// In-bounds orthogonal neighbours of `c` in left, right, up, down order,
    /// optionally only the walkable ones.
    pub open spec fn adjacent_spec(&self, c: Coord, walkable_only: bool) -> Seq<Coord> {
        self.keep_if(c.x - 1, c.y as int, walkable_only) + self.keep_if(c.x + 1, c.y as int, walkable_only)
            + self.keep_if(c.x as int, c.y - 1, walkable_only) + self.keep_if(c.x as int, c.y + 1, walkable_only)
    }

    /// Append `(x, y)` to `out` if it passes [`Grid::keep_if`].
    fn push_if(&self, out: &mut Vec<Coord>, x: i64, y: i64, walkable_only: bool)
        requires
            self.wf(),
        ensures
            final(out)@ == old(out)@ + self.keep_if(x as int, y as int, walkable_only),
    {
        if 0 <= x && x < self.width as i64 && 0 <= y && y < self.height as i64 {
            let c = Coord::new(x as i32, y as i32);
            if !walkable_only || self.walkable(c) {
                out.push(c);
            }
        }
    }

    /// In-bounds orthogonal neighbours, in left/right/up/down order. Several
    /// algorithms pick "the first walkable neighbour", so the order is part
    /// of the behaviour.
    pub fn adjacent(&self, c: Coord) -> (r: Vec<Coord>)
        requires
            self.wf(),
        ensures
            r@ == self.adjacent_spec(c, false),
    {
        let mut out = Vec::new();
        let (x, y) = (c.x as i64, c.y as i64);
        self.push_if(&mut out, x - 1, y, false);
        self.push_if(&mut out, x + 1, y, false);
        self.push_if(&mut out, x, y - 1, false);
        self.push_if(&mut out, x, y + 1, false);
        out
    }

    /// In-bounds orthogonal neighbours nothing is standing on, in the same
    /// order.
    pub fn adjacent_walkable(&self, c: Coord) -> (r: Vec<Coord>)
        requires
            self.wf(),
        ensures
            r@ == self.adjacent_spec(c, true),
    {
        let mut out = Vec::new();
        let (x, y) = (c.x as i64, c.y as i64);
        self.push_if(&mut out, x - 1, y, true);
        self.push_if(&mut out, x + 1, y, true);
        self.push_if(&mut out, x, y - 1, true);
        self.push_if(&mut out, x, y + 1, true);
        out
    }

    /// Every in-bounds cell within taxicab `radius` of `center`, including
    /// `center` itself, in row-major order.
    pub fn cells_in_diamond(&self, center: Coord, radius: i32) -> (r: Vec<Coord>)
        requires
            self.wf(),
        ensures
            forall|i: int| 0 <= i < r@.len() ==> self.spec_in_bounds(#[trigger] r@[i]) && taxi_spec(r@[i], center) <= radius,
            forall|d: Coord| self.spec_in_bounds(d) && taxi_spec(d, center) <= radius ==> #[trigger] r@.contains(d),
            forall|i: int, j: int| 0 <= i < j < r@.len() ==> row_major_before(#[trigger] r@[i], #[trigger] r@[j]),
    {
        let mut out: Vec<Coord> = Vec::new();
        let r = radius as i64;
        let (cx, cy) = (center.x as i64, center.y as i64);
        let mut dy: i64 = -r;
        while dy <= r
            invariant
                self.wf(),
                r == radius,
                cx == center.x,
                cy == center.y,
                -r <= dy,
                r >= 0 ==> dy <= r + 1,
                forall|i: int| 0 <= i < out@.len() ==> self.spec_in_bounds(#[trigger] out@[i]) && taxi_spec(out@[i], center) <= radius && out@[i].y < cy + dy,
                forall|d: Coord| self.spec_in_bounds(d) && taxi_spec(d, center) <= radius && d.y < cy + dy ==> #[trigger] out@.contains(d),
                forall|i: int, j: int| 0 <= i < j < out@.len() ==> row_major_before(#[trigger] out@[i], #[trigger] out@[j]),
            decreases r + 1 - dy,
        {
            let span = r - (if dy < 0 { -dy } else { dy });
            let mut dx: i64 = -span;
            let ghost before = out@;
            while dx <= span
                invariant
                    self.wf(),
                    r == radius,
                    cx == center.x,
                    cy == center.y,
                    -r <= dy <= r,
                    span == r - iabs(dy as int),
                    -span <= dx <= span + 1,
                    before.len() <= out@.len(),
                    forall|i: int| 0 <= i < before.len() ==> out@[i] == before[i],
                    forall|i: int| 0 <= i < before.len() ==> #[trigger] before[i].y < cy + dy,
                    forall|i: int| before.len() <= i < out@.len() ==> (#[trigger] out@[i]).y == cy + dy && out@[i].x < cx + dx,
                    forall|i: int| 0 <= i < out@.len() ==> self.spec_in_bounds(#[trigger] out@[i]) && taxi_spec(out@[i], center) <= radius && out@[i].y <= cy + dy,
                    forall|d: Coord| self.spec_in_bounds(d) && taxi_spec(d, center) <= radius && (d.y < cy + dy || (d.y == cy + dy && d.x < cx + dx)) ==> #[trigger] out@.contains(d),
                    forall|i: int, j: int| 0 <= i < j < out@.len() ==> row_major_before(#[trigger] out@[i], #[trigger] out@[j]),
                decreases span + 1 - dx,
            {
                let x = cx + dx;
                let y = cy + dy;
                if 0 <= x && x < self.width as i64 && 0 <= y && y < self.height as i64 {
                    let c = Coord::new(x as i32, y as i32);
                    let ghost prev = out@;
                    out.push(c);
                    proof {
                        assert forall|i: int, j: int| 0 <= i < j < out@.len() implies row_major_before(#[trigger] out@[i], #[trigger] out@[j]) by {
                            if j == out@.len() - 1 {
                                if i < before.len() {
                                    assert(out@[i] == before[i]);
                                    assert(before[i].y < cy + dy);
                                } else {
                                    assert(prev[i] == out@[i]);
                                }
                            } else {
                                assert(prev[i] == out@[i] && prev[j] == out@[j]);
                            }
                        }
                        assert forall|d: Coord| self.spec_in_bounds(d) && taxi_spec(d, center) <= radius && (d.y < cy + dy || (d.y == cy + dy && d.x < cx + dx + 1)) implies #[trigger] out@.contains(d) by {
                            if d == c {
                                assert(out@[out@.len() - 1] == c);
                            } else {
                                assert(prev.contains(d));
                                assert(prev.contains(d));
                        let k = choose|k: int| 0 <= k < prev.len() && prev[k] == d;
                                assert(out@[k] == d);
                            }
                        }
                    }
                } else {
                    proof {
                        assert forall|d: Coord| self.spec_in_bounds(d) && taxi_spec(d, center) <= radius && (d.y < cy + dy || (d.y == cy + dy && d.x < cx + dx + 1)) implies #[trigger] out@.contains(d) by {
                            if d.y == cy + dy && d.x == cx + dx {
                                assert(false);
                            }
                        }
                    }
                }
                dx = dx + 1;
            }
            proof {
                assert forall|d: Coord| self.spec_in_bounds(d) && taxi_spec(d, center) <= radius && d.y < cy + dy + 1 implies #[trigger] out@.contains(d) by {
                    if d.y == cy + dy {
                        assert(d.x < cx + dx);
                    }
                }
            }
            dy = dy + 1;
        }
        proof {
            assert forall|d: Coord| self.spec_in_bounds(d) && taxi_spec(d, center) <= radius implies #[trigger] out@.contains(d) by {
                assert(d.y < cy + dy);
            }
        }
        out
    }
}

/// `1` if `a` has to increase to reach `b`, otherwise `-1`.
pub open spec fn sgn_toward(a: int, b: int) -> int {
    if a < b {
        1
    } else {
        -1
    }
}

/// The rest of a Bresenham walk standing at `(x, y)` with error term `err`.
///
/// Each step moves one cell along `x` when `2 * err > -dy`, one cell along `y`
/// when `2 * err < dx`, or both; `fuel` bounds the number of unit moves left.
pub open spec fn line_walk(
    x: int,
    y: int,
    to: Coord,
    err: int,
    dx: int,
    dy: int,
    sx: int,
    sy: int,
    fuel: nat,
) -> Seq<Coord>
    decreases fuel,
{
    if x == to.x && y == to.y {
        seq![coord_at(x, y)]
    } else {
        let step_x = 2 * err > -dy;
        let step_y = 2 * err < dx;
        let used: nat = (if step_x { 1nat } else { 0nat }) + (if step_y { 1nat } else { 0nat });
        if used == 0 || fuel < used {
            seq![coord_at(x, y)]
        } else {
            let err1 = if step_x { err - dy } else { err };
            let err2 = if step_y { err1 + dx } else { err1 };
            seq![coord_at(x, y)] + line_walk(
                if step_x { x + sx } else { x },
                if step_y { y + sy } else { y },
                to,
                err2,
                dx,
                dy,
                sx,
                sy,
                (fuel - used) as nat,
            )
        }
    }
}

/// The Bresenham line from `from` to `to`, both ends included.
pub open spec fn line_spec(from: Coord, to: Coord) -> Seq<Coord> {
    let dx = iabs(to.x - from.x);
    let dy = iabs(to.y - from.y);
    line_walk(
        from.x as int,
        from.y as int,
        to,
        dx - dy,
        dx,
        dy,
        sgn_toward(from.x as int, to.x as int),
        sgn_toward(from.y as int, to.y as int),
        (dx + dy) as nat,
    )
}

/// `v` lies between `a` and `b`, inclusive, whichever order they are in.
pub open spec fn between(v: int, a: int, b: int) -> bool {
    (a <= v <= b) || (b <= v <= a)
}

/// The two cells differ by at most one in each coordinate and are distinct.
pub open spec fn king_step(a: Coord, b: Coord) -> bool {
    iabs(a.x - b.x) <= 1 && iabs(a.y - b.y) <= 1 && a != b
}

impl Grid {
    /// Bresenham line from `from` to `to`, both ends included.
    ///
    /// Every cell lies inside the box the two ends span, and each cell is a
    /// single king's move on from the one before it.
    pub fn cells_along_line(from: Coord, to: Coord) -> (r: Vec<Coord>)
        ensures
            r@ == line_spec(from, to),
            r@.len() >= 1,
            r@[0] == from,
            r@[r@.len() - 1] == to,
            forall|i: int| 0 <= i < r@.len() ==> between((#[trigger] r@[i]).x as int, from.x as int, to.x as int) && between(r@[i].y as int, from.y as int, to.y as int),
            forall|i: int| 0 < i < r@.len() ==> king_step(#[trigger] r@[i - 1], r@[i]),
    {
        let fx = from.x as i64;
        let fy = from.y as i64;
        let tx = to.x as i64;
        let ty = to.y as i64;
        let dx = if tx >= fx { tx - fx } else { fx - tx };
        let dy = if ty >= fy { ty - fy } else { fy - ty };
        let sx: i64 = if fx < tx { 1 } else { -1 };
        let sy: i64 = if fy < ty { 1 } else { -1 };
        let mut err = dx - dy;
        let mut ax = fx;
        let mut ay = fy;
        let mut out: Vec<Coord> = Vec::new();
        let ghost mut kx: int = 0;
        let ghost mut ky: int = 0;
        assert(out@ + line_walk(ax as int, ay as int, to, err as int, dx as int, dy as int, sx as int, sy as int, (dx + dy) as nat) == line_spec(from, to));
        loop
            invariant
                tx == to.x,
                ty == to.y,
                dx == iabs(to.x - from.x),
                dy == iabs(to.y - from.y),
                sx == sgn_toward(from.x as int, to.x as int),
                sy == sgn_toward(from.y as int, to.y as int),
                0 <= kx <= dx,
                0 <= ky <= dy,
                ax == from.x + sx * kx,
                ay == from.y + sy * ky,
                err == dx - dy + ky * dx - kx * dy,
                -2 * dy <= err <= 2 * dx,
                out@ + line_walk(ax as int, ay as int, to, err as int, dx as int, dy as int, sx as int, sy as int, ((dx - kx) + (dy - ky)) as nat) == line_spec(from, to),
                out@.len() == 0 ==> kx == 0 && ky == 0,
                out@.len() > 0 ==> out@[0] == from,
                out@.len() > 0 ==> king_step(out@[out@.len() - 1], coord_at(ax as int, ay as int)),
                forall|i: int| 0 <= i < out@.len() ==> between((#[trigger] out@[i]).x as int, from.x as int, to.x as int) && between(out@[i].y as int, from.y as int, to.y as int),
                forall|i: int| 0 < i < out@.len() ==> king_step(#[trigger] out@[i - 1], out@[i]),
            decreases (dx - kx) + (dy - ky),
        {
            proof {
                assert(between(ax as int, from.x as int, to.x as int)) by (nonlinear_arith)
                    requires
                        ax == from.x + sx * kx,
                        0 <= kx <= dx,
                        dx == iabs(to.x - from.x),
                        sx == sgn_toward(from.x as int, to.x as int),
                ;
                assert(between(ay as int, from.y as int, to.y as int)) by (nonlinear_arith)
                    requires
                        ay == from.y + sy * ky,
                        0 <= ky <= dy,
                        dy == iabs(to.y - from.y),
                        sy == sgn_toward(from.y as int, to.y as int),
                ;
                assert((ax == to.x) == (kx == dx)) by (nonlinear_arith)
                    requires
                        ax == from.x + sx * kx,
                        0 <= kx <= dx,
                        dx == iabs(to.x - from.x),
                        sx == sgn_toward(from.x as int, to.x as int),
                ;
                assert((ay == to.y) == (ky == dy)) by (nonlinear_arith)
                    requires
                        ay == from.y + sy * ky,
                        0 <= ky <= dy,
                        dy == iabs(to.y - from.y),
                        sy == sgn_toward(from.y as int, to.y as int),
                ;
            }
            let c = Coord::new(ax as i32, ay as i32);
            let ghost prev = out@;
            out.push(c);
            if ax == tx && ay == ty {
                proof {
                    assert(ax == to.x);
                    assert(ay == to.y);
                    assert(c.x == to.x);
                    assert(c.y == to.y);
                    let rest = line_walk(ax as int, ay as int, to, err as int, dx as int, dy as int, sx as int, sy as int, ((dx - kx) + (dy - ky)) as nat);
                    assert(rest == seq![coord_at(ax as int, ay as int)]);
                    assert(coord_at(ax as int, ay as int) == c);
                    assert(out@ =~= prev + rest);
                    assert(c == to);
                }
                return out;
            }
            let e2 = 2 * err;
            let step_x = e2 > -dy;
            let step_y = e2 < dx;
            proof {
                // Neither coordinate overshoots, and something always moves.
                if kx == dx && ky < dy {
                    assert(err <= -dy) by (nonlinear_arith)
                        requires
                            err == dx - dy + ky * dx - kx * dy,
                            kx == dx,
                            ky < dy,
                            0 <= dx,
                    ;
                }
                if ky == dy && kx < dx {
                    assert(err >= dx) by (nonlinear_arith)
                        requires
                            err == dx - dy + ky * dx - kx * dy,
                            ky == dy,
                            kx < dx,
                            0 <= dy,
                    ;
                }
                assert(step_x || step_y);
                assert(step_x ==> kx < dx);
                assert(step_y ==> ky < dy);
            }
            let ghost old_err = err;
            if step_x {
                err = err - dy;
                ax = ax + sx;
                proof {
                    assert(sx * (kx + 1) == sx * kx + sx) by (nonlinear_arith);
                    assert((kx + 1) * dy == kx * dy + dy) by (nonlinear_arith);
                    kx = kx + 1;
                }
            }
            if step_y {
                err = err + dx;
                ay = ay + sy;
                proof {
                    assert(sy * (ky + 1) == sy * ky + sy) by (nonlinear_arith);
                    assert((ky + 1) * dx == ky * dx + dx) by (nonlinear_arith);
                    ky = ky + 1;
                }
            }
            proof {
                assert(out@ =~= prev.push(c));
                assert(out@[out@.len() - 1] == c);
            }
        }
    }
}

/// The smaller of two integers.
pub open spec fn imin(a: int, b: int) -> int {
    if a < b {
        a
    } else {
        b
    }
}

/// The larger of two integers.
pub open spec fn imax(a: int, b: int) -> int {
    if a > b {
        a
    } else {
        b
    }
}

/// `-1`, `0` or `1` by the sign of `v`.
pub open spec fn signum(v: int) -> int {
    if v < 0 {
        -1
    } else if v > 0 {
        1
    } else {
        0
    }
}

impl Grid {
    /// Whether something at `from` can see `to`: every cell strictly between
    /// them on the Bresenham line is transparent.
    pub open spec fn sight_spec(&self, from: Coord, to: Coord) -> bool {
        let line = line_spec(from, to);
        forall|i: int| 0 < i < line.len() - 1 ==> (#[trigger] self.spec_cell(line[i])).transparent
    }

    /// Leftmost column of the square of side `2 * radius + 1` about `c`,
    /// clipped to the map.
    pub open spec fn box_x0(&self, c: Coord, radius: int) -> int {
        imax(c.x - radius, 0)
    }

    /// Rightmost column of that square.
    pub open spec fn box_x1(&self, c: Coord, radius: int) -> int {
        imin(c.x + radius, self.spec_width() - 1)
    }

    /// Top row of that square.
    pub open spec fn box_y0(&self, c: Coord, radius: int) -> int {
        imax(c.y - radius, 0)
    }

    /// Bottom row of that square.
    pub open spec fn box_y1(&self, c: Coord, radius: int) -> int {
        imin(c.y + radius, self.spec_height() - 1)
    }

    /// Whether `d` lies inside the clipped square about `c`.
    pub open spec fn in_box(&self, c: Coord, radius: int, d: Coord) -> bool {
        &&& self.box_x0(c, radius) <= d.x <= self.box_x1(c, radius)
        &&& self.box_y0(c, radius) <= d.y <= self.box_y1(c, radius)
    }

    /// Whether `d` lies on the border of the clipped square about `c`.
    pub open spec fn on_border(&self, c: Coord, radius: int, d: Coord) -> bool {
        &&& self.in_box(c, radius, d)
        &&& (d.x == self.box_x0(c, radius) || d.x == self.box_x1(c, radius) || d.y == self.box_y0(c, radius)
            || d.y == self.box_y1(c, radius))
    }

    /// The cast from `origin` toward border cell `b` gets as far as the
    /// `i`th cell of its line and lights it: every cell up to it is within
    /// taxicab `radius`, every cell before it lets light through, and it is
    /// either transparent itself or walls are being lit.
    pub open spec fn cast_reaches(&self, origin: Coord, radius: int, light_walls: bool, b: Coord, i: int) -> bool {
        let line = line_spec(origin, b);
        &&& 0 <= i < line.len()
        &&& forall|j: int| 0 <= j <= i ==> taxi_spec(#[trigger] line[j], origin) <= radius
        &&& forall|j: int| 0 <= j < i ==> (#[trigger] self.spec_cell(line[j])).transparent
        &&& (self.spec_cell(line[i]).transparent || light_walls)
    }

    /// The cast toward `b` lights `c`.
    pub open spec fn cast_lights(&self, origin: Coord, radius: int, light_walls: bool, b: Coord, c: Coord) -> bool {
        exists|i: int| #[trigger] self.cast_reaches(origin, radius, light_walls, b, i) && line_spec(origin, b)[i] == c
    }

    /// Some cast toward the border of the square lights `c`.
    pub open spec fn cast_lit(&self, origin: Coord, radius: int, light_walls: bool, c: Coord) -> bool {
        exists|b: Coord| #[trigger] self.on_border(origin, radius, b) && self.cast_lights(origin, radius, light_walls, b, c)
    }

    /// What the casts from `origin` light depends only on the map's size and
    /// on what can be seen through.
    pub proof fn lemma_cast_lit_carries(&self, other: &Grid, origin: Coord, radius: int, light_walls: bool, c: Coord)
        requires
            self.spec_width() == other.spec_width(),
            self.spec_height() == other.spec_height(),
            forall|d: Coord| #[trigger] other.spec_cell(d).transparent == self.spec_cell(d).transparent,
            self.cast_lit(origin, radius, light_walls, c),
        ensures
            other.cast_lit(origin, radius, light_walls, c),
    {
        let b = choose|b: Coord| #[trigger] self.on_border(origin, radius, b) && self.cast_lights(origin, radius, light_walls, b, c);
        let i = choose|i: int| #[trigger] self.cast_reaches(origin, radius, light_walls, b, i) && line_spec(origin, b)[i] == c;
        let line = line_spec(origin, b);
        assert forall|j: int| 0 <= j < i implies (#[trigger] other.spec_cell(line[j])).transparent by {
            assert(self.spec_cell(line[j]).transparent);
        }
        assert(other.spec_cell(line[i]).transparent == self.spec_cell(line[i]).transparent);
        assert(other.cast_reaches(origin, radius, light_walls, b, i));
        assert(other.cast_lights(origin, radius, light_walls, b, c));
        assert(other.on_border(origin, radius, b));
    }

    /// The casts from a point on the map light that point itself.
    pub proof fn lemma_cast_lights_origin(&self, origin: Coord, radius: int)
        requires
            self.spec_in_bounds(origin),
            radius >= 0,
        ensures
            self.cast_lit(origin, radius, true, origin),
    {
        let b = Coord { x: self.box_x0(origin, radius) as i32, y: origin.y };
        assert(self.on_border(origin, radius, b));
        let line = line_spec(origin, b);
        assert(line.len() >= 1 && line[0] == origin) by {
            reveal_with_fuel(line_walk, 2);
        }
        assert(self.cast_reaches(origin, radius, true, b, 0));
        assert(self.cast_lights(origin, radius, true, b, origin));
    }

    /// Lit by the current field of view or by the casts from `origin`.
    pub open spec fn lit_after_casts(&self, origin: Coord, radius: int, light_walls: bool, c: Coord) -> bool {
        self.spec_cell(c).in_fov || self.cast_lit(origin, radius, light_walls, c)
    }

    /// Transparent, and lit after the casts.
    pub open spec fn open_and_lit(&self, origin: Coord, radius: int, light_walls: bool, p: Coord) -> bool {
        self.spec_cell(p).transparent && self.lit_after_casts(origin, radius, light_walls, p)
    }

    /// A wall cell the quadrant pass lights: off both axes through `origin`,
    /// opaque, and bordering lit floor on one of its three sides facing
    /// `origin`.
    pub open spec fn quadrant_lit(&self, origin: Coord, radius: int, c: Coord) -> bool {
        let ty = coord_at(c.x as int, c.y + signum(origin.y - c.y));
        let tx = coord_at(c.x + signum(origin.x - c.x), c.y as int);
        let diag = coord_at(tx.x as int, ty.y as int);
        &&& self.in_box(origin, radius, c)
        &&& c.x != origin.x
        &&& c.y != origin.y
        &&& !self.spec_cell(c).transparent
        &&& (self.open_and_lit(origin, radius, true, ty) || self.open_and_lit(origin, radius, true, tx)
            || self.open_and_lit(origin, radius, true, diag))
    }

    /// Whether `c` is in the field of view after one light source of
    /// `radius` at `origin` has been added.
    pub open spec fn fov_after(&self, origin: Coord, radius: int, light_walls: bool, c: Coord) -> bool {
        self.lit_after_casts(origin, radius, light_walls, c) || (light_walls && self.quadrant_lit(origin, radius, c))
    }

    /// Whether anything at `from` can see `to`.
    ///
    /// Every cell strictly between the two has to be transparent; the
    /// endpoints themselves do not, so somebody standing in a doorway is
    /// visible from both sides of it. Bodies do not block sight.
    pub fn line_of_sight(&self, from: Coord, to: Coord) -> (b: bool)
        requires
            self.wf(),
        ensures
            b == self.sight_spec(from, to),
    {
        let line = Self::cells_along_line(from, to);
        let n = line.len();
        let mut i: usize = 1;
        while i < n - 1
            invariant
                self.wf(),
                line@ == line_spec(from, to),
                n == line@.len(),
                n >= 1,
                1 <= i <= n,
                forall|j: int| 0 < j < i ==> (#[trigger] self.spec_cell(line@[j])).transparent,
            decreases n - i,
        {
            if !self.transparent(line[i]) {
                return false;
            }
            i = i + 1;
        }
        true
    }

    /// Forget the current field of view.
    pub fn clear_fov(&mut self)
        requires
            old(self).wf(),
        ensures
            final(self).wf(),
            final(self).spec_width() == old(self).spec_width(),
            final(self).spec_height() == old(self).spec_height(),
            forall|c: Coord| #[trigger] final(self).spec_cell(c) == (Cell { in_fov: false, ..old(self).spec_cell(c) }),
    {
        let n = self.cells.len();
        let mut i: usize = 0;
        while i < n
            invariant
                self.wf(),
                self.width == old(self).width,
                self.height == old(self).height,
                n == self.cells@.len(),
                i <= n,
                forall|j: int| 0 <= j < i ==> #[trigger] self.cells@[j] == (Cell { in_fov: false, ..old(self).cells@[j] }),
                forall|j: int| i <= j < n ==> #[trigger] self.cells@[j] == old(self).cells@[j],
            decreases n - i,
        {
            let c = self.cells[i];
            self.cells.set(i, Cell { in_fov: false, ..c });
            i = i + 1;
        }
        proof {
            assert forall|c: Coord| #[trigger] self.spec_cell(c) == (Cell { in_fov: false, ..old(self).spec_cell(c) }) by {
                if self.spec_in_bounds(c) {
                    lemma_flat_index(self.width as int, self.height as int, c);
                }
            }
        }
    }

    /// The cells on the border of the bounding square of side
    /// `2 * radius + 1`, clipped to the map. These are the field of view's
    /// cast targets.
    fn border_cells_in_square(&self, center: Coord, radius: i32) -> (r: Vec<Coord>)
        requires
            self.wf(),
            self.spec_in_bounds(center),
            radius >= 0,
        ensures
            forall|i: int| 0 <= i < r@.len() ==> self.on_border(center, radius as int, #[trigger] r@[i]),
            forall|d: Coord| self.on_border(center, radius as int, d) ==> #[trigger] r@.contains(d),
    {
        let rr = radius as i64;
        let (cx, cy) = (center.x as i64, center.y as i64);
        let (w, h) = (self.width as i64, self.height as i64);
        let x_min = if cx - rr > 0 { cx - rr } else { 0 };
        let x_max = if cx + rr < w - 1 { cx + rr } else { w - 1 };
        let y_min = if cy - rr > 0 { cy - rr } else { 0 };
        let y_max = if cy + rr < h - 1 { cy + rr } else { h - 1 };
        let ghost r = radius as int;
        assert(x_min == self.box_x0(center, r) && x_max == self.box_x1(center, r));
        assert(y_min == self.box_y0(center, r) && y_max == self.box_y1(center, r));
        let mut out: Vec<Coord> = Vec::new();
        let mut x = x_min;
        while x <= x_max
            invariant
                self.wf(),
                r == radius,
                x_min == self.box_x0(center, r),
                x_max == self.box_x1(center, r),
                y_min == self.box_y0(center, r),
                y_max == self.box_y1(center, r),
                0 <= x_min <= center.x <= x_max < self.spec_width(),
                0 <= y_min <= center.y <= y_max < self.spec_height(),
                x_min <= x <= x_max + 1,
                forall|i: int| 0 <= i < out@.len() ==> self.on_border(center, r, #[trigger] out@[i]),
                forall|d: Coord| self.on_border(center, r, d) && (d.y == y_min || d.y == y_max) && d.x < x ==> #[trigger] out@.contains(d),
            decreases x_max + 1 - x,
        {
            let ghost prev = out@;
            let top = Coord::new(x as i32, y_min as i32);
            out.push(top);
            if y_max != y_min {
                out.push(Coord::new(x as i32, y_max as i32));
            }
            proof {
                assert forall|d: Coord| self.on_border(center, r, d) && (d.y == y_min || d.y == y_max) && d.x < x + 1 implies #[trigger] out@.contains(d) by {
                    if d.x == x {
                        if d.y == y_min {
                            assert(out@[prev.len() as int] == d);
                        } else {
                            assert(out@[out@.len() - 1] == d);
                        }
                    } else {
                        assert(prev.contains(d));
                        let k = choose|k: int| 0 <= k < prev.len() && prev[k] == d;
                        assert(out@[k] == d);
                    }
                }
            }
            x = x + 1;
        }
        let mut y = y_min + 1;
        while y < y_max
            invariant
                self.wf(),
                r == radius,
                x_min == self.box_x0(center, r),
                x_max == self.box_x1(center, r),
                y_min == self.box_y0(center, r),
                y_max == self.box_y1(center, r),
                0 <= x_min <= center.x <= x_max < self.spec_width(),
                0 <= y_min <= center.y <= y_max < self.spec_height(),
                y_min + 1 <= y <= y_max || y == y_min + 1,
                forall|i: int| 0 <= i < out@.len() ==> self.on_border(center, r, #[trigger] out@[i]),
                forall|d: Coord| self.on_border(center, r, d) && (d.y == y_min || d.y == y_max) ==> #[trigger] out@.contains(d),
                forall|d: Coord| self.on_border(center, r, d) && d.y < y ==> #[trigger] out@.contains(d),
            decreases y_max - y,
        {
            let ghost prev = out@;
            out.push(Coord::new(x_min as i32, y as i32));
            if x_max != x_min {
                out.push(Coord::new(x_max as i32, y as i32));
            }
            proof {
                assert forall|d: Coord| self.on_border(center, r, d) && (d.y == y_min || d.y == y_max) implies #[trigger] out@.contains(d) by {
                    assert(prev.contains(d));
                    let k = choose|k: int| 0 <= k < prev.len() && prev[k] == d;
                    assert(out@[k] == d);
                }
                assert forall|d: Coord| self.on_border(center, r, d) && d.y < y + 1 implies #[trigger] out@.contains(d) by {
                    if d.y == y {
                        if d.x == x_min {
                            assert(out@[prev.len() as int] == d);
                        } else {
                            assert(out@[out@.len() - 1] == d);
                        }
                    } else {
                        assert(prev.contains(d));
                        let k = choose|k: int| 0 <= k < prev.len() && prev[k] == d;
                        assert(out@[k] == d);
                    }
                }
            }
            y = y + 1;
        }
        proof {
            assert forall|d: Coord| self.on_border(center, r, d) implies #[trigger] out@.contains(d) by {
                if !(d.y == y_min || d.y == y_max) {
                    assert(d.y < y);
                }
            }
        }
        out
    }
}

impl Grid {
    /// Some cast toward one of the first `k` border cells lights `c`.
    pub open spec fn lit_by_first(&self, origin: Coord, radius: int, light_walls: bool, borders: Seq<Coord>, k: int, c: Coord) -> bool {
        exists|m: int| 0 <= m < k && #[trigger] self.cast_lights(origin, radius, light_walls, borders[m], c)
    }

    /// Light the cell at `c`, which must be on the map.
    fn light(&mut self, c: Coord)
        requires
            old(self).wf(),
            old(self).spec_in_bounds(c),
        ensures
            old(self).same_but(&*final(self), c),
            final(self).spec_cell(c) == (Cell { in_fov: true, ..old(self).spec_cell(c) }),
    {
        let cell = self.cell(c);
        self.put(c, Cell { in_fov: true, ..cell });
    }

    /// Walk one cast line out from `origin`, lighting what it reaches.
    fn cast(&mut self, origin: Coord, radius: i32, light_walls: bool, b: Coord, Ghost(g0): Ghost<Grid>)
        requires
            old(self).wf(),
            g0.wf(),
            old(self).spec_in_bounds(origin),
            old(self).spec_in_bounds(b),
            old(self).spec_width() == g0.spec_width(),
            old(self).spec_height() == g0.spec_height(),
            forall|c: Coord| (#[trigger] old(self).spec_cell(c)).transparent == g0.spec_cell(c).transparent,
            forall|c: Coord| #[trigger] old(self).spec_cell(c) == (Cell { in_fov: old(self).spec_cell(c).in_fov, ..g0.spec_cell(c) }),
        ensures
            final(self).wf(),
            final(self).spec_width() == g0.spec_width(),
            final(self).spec_height() == g0.spec_height(),
            forall|c: Coord| #[trigger] final(self).spec_cell(c) == (Cell {
                in_fov: old(self).spec_cell(c).in_fov || g0.cast_lights(origin, radius as int, light_walls, b, c),
                ..g0.spec_cell(c)
            }),
    {
        let line = Self::cells_along_line(origin, b);
        let n = line.len();
        let ghost g1 = *self;
        let ghost r = radius as int;
        let ghost lw = light_walls;
        let mut i: usize = 0;
        let mut going = true;
        while going && i < n
            invariant
                self.wf(),
                g0.wf(),
                self.spec_width() == g0.spec_width(),
                self.spec_height() == g0.spec_height(),
                g0.spec_in_bounds(origin),
                g0.spec_in_bounds(b),
                r == radius,
                lw == light_walls,
                line@ == line_spec(origin, b),
                n == line@.len(),
                i <= n,
                forall|j: int| 0 <= j < line@.len() ==> between((#[trigger] line@[j]).x as int, origin.x as int, b.x as int) && between(line@[j].y as int, origin.y as int, b.y as int),
                forall|c: Coord| #[trigger] g1.spec_cell(c) == (Cell { in_fov: g1.spec_cell(c).in_fov, ..g0.spec_cell(c) }),
                going ==> forall|j: int| 0 <= j < i ==> taxi_spec(#[trigger] line@[j], origin) <= r && g0.spec_cell(line@[j]).transparent,
                !going ==> forall|j: int| i <= j < n ==> !#[trigger] g0.cast_reaches(origin, r, lw, b, j),
                forall|c: Coord| #[trigger] self.spec_cell(c) == (Cell {
                    in_fov: g1.spec_cell(c).in_fov || exists|j: int| 0 <= j < i && #[trigger] g0.cast_reaches(origin, r, lw, b, j) && line@[j] == c,
                    ..g0.spec_cell(c)
                }),
            decreases n - i, (if going { 1int } else { 0int }),
        {
            let cell = line[i];
            proof {
                assert(between(cell.x as int, origin.x as int, b.x as int));
                assert(between(cell.y as int, origin.y as int, b.y as int));
                assert(g0.spec_in_bounds(cell));
                g0.lemma_taxi_fits(cell, origin);
            }
            if cell.taxi(origin) > radius {
                going = false;
                proof {
                    assert forall|j: int| i <= j < n implies !#[trigger] g0.cast_reaches(origin, r, lw, b, j) by {
                        if g0.cast_reaches(origin, r, lw, b, j) {
                            assert(taxi_spec(line@[i as int], origin) <= r);
                        }
                    }
                }
            } else {
                let t = self.transparent(cell);
                let ghost before = *self;
                if t || light_walls {
                    self.light(cell);
                }
                proof {
                    assert(g0.cast_reaches(origin, r, lw, b, i as int) == (t || lw));
                    assert forall|c: Coord| #[trigger] self.spec_cell(c) == (Cell {
                        in_fov: g1.spec_cell(c).in_fov || exists|j: int| 0 <= j < i + 1 && #[trigger] g0.cast_reaches(origin, r, lw, b, j) && line@[j] == c,
                        ..g0.spec_cell(c)
                    }) by {
                        let ex_old = exists|j: int| 0 <= j < i && #[trigger] g0.cast_reaches(origin, r, lw, b, j) && line@[j] == c;
                        let ex_new = exists|j: int| 0 <= j < i + 1 && #[trigger] g0.cast_reaches(origin, r, lw, b, j) && line@[j] == c;
                        if ex_old {
                            let j = choose|j: int| 0 <= j < i && #[trigger] g0.cast_reaches(origin, r, lw, b, j) && line@[j] == c;
                            assert(0 <= j < i + 1 && g0.cast_reaches(origin, r, lw, b, j) && line@[j] == c);
                        }
                        if c == cell && (t || lw) {
                            assert(g0.cast_reaches(origin, r, lw, b, i as int) && line@[i as int] == c);
                        }
                        if ex_new && !ex_old {
                            let j = choose|j: int| 0 <= j < i + 1 && #[trigger] g0.cast_reaches(origin, r, lw, b, j) && line@[j] == c;
                            assert(j == i);
                        }
                    }
                }
                if !t {
                    going = false;
                    proof {
                        assert forall|j: int| i + 1 <= j < n implies !#[trigger] g0.cast_reaches(origin, r, lw, b, j) by {
                            if g0.cast_reaches(origin, r, lw, b, j) {
                                assert(g0.spec_cell(line@[i as int]).transparent);
                            }
                        }
                    }
                }
                i = i + 1;
            }
        }
        proof {
            assert forall|c: Coord| #[trigger] self.spec_cell(c) == (Cell {
                in_fov: g1.spec_cell(c).in_fov || g0.cast_lights(origin, r, lw, b, c),
                ..g0.spec_cell(c)
            }) by {
                let ex = exists|j: int| 0 <= j < i && #[trigger] g0.cast_reaches(origin, r, lw, b, j) && line@[j] == c;
                if ex {
                    let j = choose|j: int| 0 <= j < i && #[trigger] g0.cast_reaches(origin, r, lw, b, j) && line@[j] == c;
                    assert(g0.cast_reaches(origin, r, lw, b, j) && line_spec(origin, b)[j] == c);
                }
                if g0.cast_lights(origin, r, lw, b, c) {
                    let j = choose|j: int| #[trigger] g0.cast_reaches(origin, r, lw, b, j) && line_spec(origin, b)[j] == c;
                    if j >= i {
                        if going {
                            assert(i == n);
                        }
                    }
                    assert(0 <= j < i);
                }
            }
        }
    }
}

impl Grid {
    /// Any two cells on the map are close enough that their distance fits an
    /// `i32`.
    pub proof fn lemma_taxi_fits(&self, a: Coord, b: Coord)
        requires
            self.wf(),
            self.spec_in_bounds(a),
            self.spec_in_bounds(b),
        ensures
            taxi_spec(a, b) <= self.spec_width() + self.spec_height() - 2,
            taxi_spec(a, b) <= i32::MAX,
    {
        let w = self.width as int;
        let h = self.height as int;
        assert(w + h <= w * h + 1) by (nonlinear_arith)
            requires
                w >= 1,
                h >= 1,
        ;
    }
}

impl Grid {
    /// Transparent and currently lit.
    pub open spec fn open_lit_now(&self, p: Coord) -> bool {
        self.spec_cell(p).transparent && self.spec_cell(p).in_fov
    }

    /// The three cells of `c` that face `origin`: toward it along y, along x,
    /// and diagonally.
    pub open spec fn facing(c: Coord, origin: Coord) -> (Coord, Coord, Coord) {
        let ty = coord_at(c.x as int, c.y + signum(origin.y - c.y));
        let tx = coord_at(c.x + signum(origin.x - c.x), c.y as int);
        (ty, tx, coord_at(tx.x as int, ty.y as int))
    }

    /// Light a wall that borders lit floor on the side facing `origin`.
    fn post_process_quadrant(&mut self, c: Coord, origin: Coord)
        requires
            old(self).wf(),
            old(self).spec_in_bounds(c),
            old(self).spec_in_bounds(origin),
        ensures
            old(self).same_but(&*final(self), c),
            final(self).spec_cell(c) == (Cell {
                in_fov: old(self).spec_cell(c).in_fov || (!old(self).spec_cell(c).transparent && (
                    old(self).open_lit_now(Self::facing(c, origin).0) || old(self).open_lit_now(Self::facing(c, origin).1)
                    || old(self).open_lit_now(Self::facing(c, origin).2))),
                ..old(self).spec_cell(c)
            }),
    {
        if self.in_fov(c) || self.transparent(c) {
            return;
        }
        let sy: i32 = if origin.y < c.y { -1 } else if origin.y > c.y { 1 } else { 0 };
        let sx: i32 = if origin.x < c.x { -1 } else if origin.x > c.x { 1 } else { 0 };
        let toward_y = Coord::new(c.x, c.y + sy);
        let toward_x = Coord::new(c.x + sx, c.y);
        let diagonal = Coord::new(toward_x.x, toward_y.y);
        proof {
            let f = Self::facing(c, origin);
            assert(f.0 == toward_y && f.1 == toward_x && f.2 == diagonal);
        }
        let lit = (self.transparent(toward_y) && self.in_fov(toward_y))
            || (self.transparent(toward_x) && self.in_fov(toward_x))
            || (self.transparent(diagonal) && self.in_fov(diagonal));
        if lit {
            self.light(c);
        }
    }

    /// Add one light source's diamond to the current field of view.
    ///
    /// Lines are cast to every border cell of the bounding square and walked
    /// until they leave taxicab `radius` or hit something opaque; with
    /// `light_walls` the blocking cell is itself lit, and a quadrant pass then
    /// lights the wall cells that no line could reach but that visibly border
    /// lit floor. Off the map, or with a negative radius, nothing happens.
    pub fn append_fov(&mut self, origin: Coord, radius: i32, light_walls: bool)
        requires
            old(self).wf(),
        ensures
            final(self).wf(),
            final(self).spec_width() == old(self).spec_width(),
            final(self).spec_height() == old(self).spec_height(),
            !old(self).spec_in_bounds(origin) || radius < 0 ==> forall|c: Coord| #[trigger] final(self).spec_cell(c) == old(self).spec_cell(c),
            old(self).spec_in_bounds(origin) && radius >= 0 ==> forall|c: Coord| old(self).spec_in_bounds(c) ==> #[trigger] final(self).spec_cell(c) == (Cell {
                in_fov: old(self).fov_after(origin, radius as int, light_walls, c),
                ..old(self).spec_cell(c)
            }),
    {
        if !self.in_bounds(origin) || radius < 0 {
            return;
        }
        let ghost g0 = *self;
        let ghost r = radius as int;
        let ghost lw = light_walls;
        let borders = self.border_cells_in_square(origin, radius);
        let nb = borders.len();
        let mut k: usize = 0;
        while k < nb
            invariant
                self.wf(),
                g0.wf(),
                self.spec_width() == g0.spec_width(),
                self.spec_height() == g0.spec_height(),
                g0.spec_in_bounds(origin),
                r == radius,
                r >= 0,
                lw == light_walls,
                nb == borders@.len(),
                k <= nb,
                forall|i: int| 0 <= i < borders@.len() ==> g0.on_border(origin, r, #[trigger] borders@[i]),
                forall|c: Coord| #[trigger] self.spec_cell(c) == (Cell {
                    in_fov: g0.spec_cell(c).in_fov || g0.lit_by_first(origin, r, lw, borders@, k as int, c),
                    ..g0.spec_cell(c)
                }),
            decreases nb - k,
        {
            let b = borders[k];
            let ghost before = *self;
            proof {
                assert(g0.on_border(origin, r, b));
                assert forall|c: Coord| (#[trigger] self.spec_cell(c)).transparent == g0.spec_cell(c).transparent by {
                    assert(self.spec_cell(c) == (Cell { in_fov: self.spec_cell(c).in_fov, ..g0.spec_cell(c) }));
                }
            }
            self.cast(origin, radius, light_walls, b, Ghost(g0));
            proof {
                assert forall|c: Coord| #[trigger] self.spec_cell(c) == (Cell {
                    in_fov: g0.spec_cell(c).in_fov || g0.lit_by_first(origin, r, lw, borders@, k + 1, c),
                    ..g0.spec_cell(c)
                }) by {
                    assert(before.spec_cell(c).in_fov == (g0.spec_cell(c).in_fov || g0.lit_by_first(origin, r, lw, borders@, k as int, c)));
                    if g0.lit_by_first(origin, r, lw, borders@, k as int, c) {
                        let m = choose|m: int| 0 <= m < k && #[trigger] g0.cast_lights(origin, r, lw, borders@[m], c);
                        assert(0 <= m < k + 1 && g0.cast_lights(origin, r, lw, borders@[m], c));
                    }
                    if g0.cast_lights(origin, r, lw, b, c) {
                        assert(g0.cast_lights(origin, r, lw, borders@[k as int], c));
                    }
                    if g0.lit_by_first(origin, r, lw, borders@, k + 1, c) {
                        let m = choose|m: int| 0 <= m < k + 1 && #[trigger] g0.cast_lights(origin, r, lw, borders@[m], c);
                        if m < k {
                            assert(g0.lit_by_first(origin, r, lw, borders@, k as int, c));
                        }
                    }
                }
            }
            k = k + 1;
        }
        proof {
            assert forall|c: Coord| #[trigger] self.spec_cell(c) == (Cell {
                in_fov: g0.lit_after_casts(origin, r, lw, c),
                ..g0.spec_cell(c)
            }) by {
                if g0.lit_by_first(origin, r, lw, borders@, nb as int, c) {
                    let m = choose|m: int| 0 <= m < nb && #[trigger] g0.cast_lights(origin, r, lw, borders@[m], c);
                    assert(g0.on_border(origin, r, borders@[m]));
                }
                if g0.cast_lit(origin, r, lw, c) {
                    let b = choose|b: Coord| #[trigger] g0.on_border(origin, r, b) && g0.cast_lights(origin, r, lw, b, c);
                    assert(borders@.contains(b));
                    let m = choose|m: int| 0 <= m < borders@.len() && borders@[m] == b;
                    assert(g0.cast_lights(origin, r, lw, borders@[m], c));
                }
            }
        }
        if !light_walls {
            return;
        }
        let ghost g2 = *self;
        let (ox, oy) = (origin.x as i64, origin.y as i64);
        let rr = radius as i64;
        let (w, h) = (self.width as i64, self.height as i64);
        let x_min = if ox - rr > 0 { ox - rr } else { 0 };
        let x_max = if ox + rr < w - 1 { ox + rr } else { w - 1 };
        let y_min = if oy - rr > 0 { oy - rr } else { 0 };
        let y_max = if oy + rr < h - 1 { oy + rr } else { h - 1 };
        let mut y = y_min;
        while y <= y_max
            invariant
                self.wf(),
                g0.wf(),
                g2.wf(),
                self.spec_width() == g0.spec_width(),
                self.spec_height() == g0.spec_height(),
                g0.spec_in_bounds(origin),
                r == radius,
                r >= 0,
                lw == light_walls,
                lw,
                ox == origin.x,
                oy == origin.y,
                x_min == g0.box_x0(origin, r),
                x_max == g0.box_x1(origin, r),
                y_min == g0.box_y0(origin, r),
                y_max == g0.box_y1(origin, r),
                0 <= x_min <= ox <= x_max < g0.spec_width(),
                0 <= y_min <= oy <= y_max < g0.spec_height(),
                y_min <= y <= y_max + 1,
                forall|c: Coord| #[trigger] g2.spec_cell(c) == (Cell { in_fov: g0.lit_after_casts(origin, r, lw, c), ..g0.spec_cell(c) }),
                forall|c: Coord| #[trigger] self.spec_cell(c) == (Cell {
                    in_fov: g0.lit_after_casts(origin, r, lw, c) || (c.y < y && g0.quadrant_lit(origin, r, c)),
                    ..g0.spec_cell(c)
                }),
            decreases y_max + 1 - y,
        {
            let mut x = x_min;
            while x <= x_max
                invariant
                    self.wf(),
                    g0.wf(),
                    self.spec_width() == g0.spec_width(),
                    self.spec_height() == g0.spec_height(),
                    g0.spec_in_bounds(origin),
                    r == radius,
                    r >= 0,
                    lw,
                    ox == origin.x,
                    oy == origin.y,
                    x_min == g0.box_x0(origin, r),
                    x_max == g0.box_x1(origin, r),
                    y_min == g0.box_y0(origin, r),
                    y_max == g0.box_y1(origin, r),
                    0 <= x_min <= ox <= x_max < g0.spec_width(),
                    0 <= y_min <= oy <= y_max < g0.spec_height(),
                    y_min <= y <= y_max,
                    x_min <= x <= x_max + 1,
                    forall|c: Coord| #[trigger] self.spec_cell(c) == (Cell {
                        in_fov: g0.lit_after_casts(origin, r, lw, c) || ((c.y < y || (c.y == y && c.x < x)) && g0.quadrant_lit(origin, r, c)),
                        ..g0.spec_cell(c)
                    }),
                decreases x_max + 1 - x,
            {
                let c = Coord::new(x as i32, y as i32);
                if x != ox && y != oy {
                    let ghost before = *self;
                    self.post_process_quadrant(c, origin);
                    proof {
                        let f = Self::facing(c, origin);
                        assert forall|p: Coord| g0.spec_cell(p).transparent implies before.open_lit_now(p) == g0.open_and_lit(origin, r, true, p) by {
                            assert(before.spec_cell(p) == (Cell {
                                in_fov: g0.lit_after_casts(origin, r, lw, p) || ((p.y < y || (p.y == y && p.x < x)) && g0.quadrant_lit(origin, r, p)),
                                ..g0.spec_cell(p)
                            }));
                        }
                        assert(before.spec_cell(f.0).transparent == g0.spec_cell(f.0).transparent);
                        assert(before.spec_cell(f.1).transparent == g0.spec_cell(f.1).transparent);
                        assert(before.spec_cell(f.2).transparent == g0.spec_cell(f.2).transparent);
                        assert(before.open_lit_now(f.0) == g0.open_and_lit(origin, r, true, f.0));
                        assert(before.open_lit_now(f.1) == g0.open_and_lit(origin, r, true, f.1));
                        assert(before.open_lit_now(f.2) == g0.open_and_lit(origin, r, true, f.2));
                        assert(g0.in_box(origin, r, c));
                    }
                }
                x = x + 1;
            }
            y = y + 1;
        }
        proof {
            assert forall|c: Coord| old(self).spec_in_bounds(c) implies #[trigger] self.spec_cell(c) == (Cell {
                in_fov: old(self).fov_after(origin, radius as int, light_walls, c),
                ..old(self).spec_cell(c)
            }) by {
                if g0.quadrant_lit(origin, r, c) {
                    assert(c.y < y);
                }
            }
        }
    }
}

/// The coordinate a flat index names on a map `width` columns wide.
#[verifier::opaque]
pub open spec fn coord_of(width: int, i: int) -> Coord {
    coord_at(i % width, i / width)
}

/// Every slot of a `width` by `height` backing store names an in-bounds
/// cell whose index is that slot.
pub proof fn lemma_coord_of(width: int, height: int, i: int)
    requires
        0 <= i < width * height,
        0 <= width,
        0 <= height,
        width * height <= i32::MAX,
    ensures
        0 <= coord_of(width, i).x < width,
        0 <= coord_of(width, i).y < height,
        flat_index(width, coord_of(width, i)) == i,
{
    reveal(flat_index);
    reveal(coord_of);
    assert(width > 0) by (nonlinear_arith)
        requires
            0 <= i < width * height,
            width >= 0,
            height >= 0,
    ;
    vstd::arithmetic::div_mod::lemma_fundamental_div_mod(i, width);
    assert(0 <= i / width < height) by (nonlinear_arith)
        requires
            0 <= i < width * height,
            width > 0,
            i == width * (i / width) + i % width,
            0 <= i % width < width,
    ;
    assert(width <= i32::MAX && height <= i32::MAX) by (nonlinear_arith)
        requires
            0 <= i < width * height,
            width > 0,
            height >= 0,
            width * height <= i32::MAX,
    ;
    assert((i / width) * width + i % width == i) by (nonlinear_arith)
        requires
            i == width * (i / width) + i % width,
    ;
}

impl Grid {
    /// `p` is a 4-way walk from `from` to `to` over the map: every step
    /// crosses one edge, and every cell strictly between the ends is
    /// walkable. The ends themselves may be occupied.
    pub open spec fn is_path(&self, p: Seq<Coord>, from: Coord, to: Coord) -> bool {
        &&& p.len() >= 1
        &&& p[0] == from
        &&& p[p.len() - 1] == to
        &&& forall|i: int| 0 <= i < p.len() ==> self.spec_in_bounds(#[trigger] p[i])
        &&& forall|i: int| 0 < i < p.len() ==> taxi_spec(#[trigger] p[i - 1], p[i]) == 1
        &&& forall|i: int| 0 < i < p.len() - 1 ==> (#[trigger] self.spec_cell(p[i])).walkable
    }

    /// Some walk from `from` to `to` exists.
    pub open spec fn reachable(&self, from: Coord, to: Coord) -> bool {
        exists|p: Seq<Coord>| #[trigger] self.is_path(p, from, to)
    }

    /// Whether the search has entered `c`.
    spec fn entered(&self, came_from: Seq<usize>, c: Coord) -> bool {
        came_from[flat_index(self.width as int, c)] != usize::MAX
    }

    /// `n` is on the map one step from `c`.
    pub open spec fn step_ok(&self, c: Coord, n: Coord) -> bool {
        self.spec_in_bounds(n) && taxi_spec(c, n) == 1
    }

    /// Every neighbour of an expanded cell that a search may enter has been
    /// entered, and none of them is the target.
    spec fn expanded(&self, came_from: Seq<usize>, c: Coord, to: Coord) -> bool {
        forall|n: Coord| #[trigger] self.step_ok(c, n) ==> n != to && (self.spec_cell(n).walkable ==> self.entered(came_from, n))
    }

    /// The link out of entered cell `i` points at an adjacent, earlier-entered
    /// cell, and `i` itself is walkable.
    spec fn link_ok(&self, came_from: Seq<usize>, order: Seq<int>, i: int) -> bool {
        let w = self.width as int;
        &&& 0 <= came_from[i] < came_from.len()
        &&& came_from[came_from[i] as int] != usize::MAX
        &&& 0 <= order[came_from[i] as int] < order[i]
        &&& taxi_spec(coord_of(w, i), coord_of(w, came_from[i] as int)) == 1
        &&& self.spec_cell(coord_of(w, i)).walkable
    }

    /// The search state is consistent: every entered cell other than the
    /// start points back at an adjacent, earlier-entered, walkable cell.
    spec fn search_ok(&self, came_from: Seq<usize>, order: Seq<int>, start: usize, from: Coord) -> bool {
        let w = self.width as int;
        &&& came_from.len() == self.cells@.len()
        &&& order.len() == came_from.len()
        &&& start == flat_index(w, from)
        &&& start < came_from.len()
        &&& came_from[start as int] == start
        &&& forall|i: int| 0 <= i < came_from.len() && came_from[i] != usize::MAX && i != start ==> #[trigger] self.link_ok(came_from, order, i)
    }

    /// The coordinate a flat index into the backing store names.
    fn coord_of_index(&self, i: usize) -> (c: Coord)
        requires
            self.wf(),
            i < self.cells@.len(),
        ensures
            c == coord_of(self.spec_width(), i as int),
            self.spec_in_bounds(c),
            flat_index(self.spec_width(), c) == i,
    {
        let w = self.width;
        proof {
            reveal(flat_index);
            reveal(coord_of);
            assert(w > 0) by (nonlinear_arith)
                requires
                    0 <= i < self.width * self.height,
                    self.width >= 0,
                    self.height >= 0,
                    w == self.width,
            ;
            vstd::arithmetic::div_mod::lemma_fundamental_div_mod(i as int, w as int);
            assert(0 <= (i as int) / (w as int) < self.spec_height()) by (nonlinear_arith)
                requires
                    0 <= i < self.width * self.height,
                    w == self.width,
                    w > 0,
                    i as int == (w as int) * ((i as int) / (w as int)) + (i as int) % (w as int),
                    0 <= (i as int) % (w as int) < w,
            ;
            assert(((i as int) / (w as int)) * (w as int) + (i as int) % (w as int) == i) by (nonlinear_arith)
                requires
                    i as int == (w as int) * ((i as int) / (w as int)) + (i as int) % (w as int),
            ;
        }
        Coord::new((i as i32) % w, (i as i32) / w)
    }

    /// Every entered cell other than the start is one step further than the
    /// cell it was entered from, and the start is at step zero.
    spec fn steps_ok(&self, came: Seq<usize>, order: Seq<int>, start: int) -> bool {
        &&& 0 <= start < order.len()
        &&& order[start] == 0
        &&& forall|i: int|
            0 <= i < came.len() && #[trigger] came[i] != usize::MAX && i != start ==> order[came[i] as int] + 1 == order[i]
    }

    /// Every entered cell is at most `d` steps out.
    spec fn within(&self, came: Seq<usize>, order: Seq<int>, d: int) -> bool {
        forall|i: int| 0 <= i < came.len() && #[trigger] came[i] != usize::MAX ==> 0 <= order[i] <= d
    }

    /// Every cell a walk of at most `d` steps reaches, passing only through
    /// open floor and ending on open floor or the start, has been entered, no
    /// further out than that walk.
    spec fn near_ok(&self, came: Seq<usize>, order: Seq<int>, from: Coord, d: int) -> bool {
        forall|q: Seq<Coord>, c: Coord|
            #[trigger] self.is_path(q, from, c) && q.len() <= d + 1 && (c == from || self.spec_cell(c).walkable)
                ==> self.entered(came, c) && order[flat_index(self.width as int, c)] <= q.len() - 1
    }

    /// Every entered cell fewer than `lim` steps out has been expanded.
    spec fn done_below(&self, came: Seq<usize>, order: Seq<int>, to: Coord, lim: int) -> bool {
        forall|c: Coord|
            self.spec_in_bounds(c) && #[trigger] self.entered(came, c) && order[flat_index(self.width as int, c)] < lim
                ==> self.expanded(came, c, to)
    }

    /// A walk cut short before its last cell is a walk to the cell before.
    proof fn lemma_walk_prefix(&self, q: Seq<Coord>, from: Coord, c: Coord)
        requires
            self.is_path(q, from, c),
            q.len() >= 2,
        ensures
            self.is_path(q.subrange(0, q.len() - 1), from, q[q.len() - 2]),
            q.len() - 2 == 0 ==> q[q.len() - 2] == from,
            q.len() - 2 > 0 ==> self.spec_cell(q[q.len() - 2]).walkable,
            self.spec_in_bounds(q[q.len() - 2]),
            taxi_spec(q[q.len() - 2], c) == 1,
    {
        let qq = q.subrange(0, q.len() - 1);
        assert forall|i: int| 0 <= i < qq.len() implies self.spec_in_bounds(#[trigger] qq[i]) by {
            assert(qq[i] == q[i]);
        }
        assert forall|i: int| 0 < i < qq.len() implies taxi_spec(#[trigger] qq[i - 1], qq[i]) == 1 by {
            assert(qq[i - 1] == q[i - 1] && qq[i] == q[i]);
        }
        assert forall|i: int| 0 < i < qq.len() - 1 implies (#[trigger] self.spec_cell(qq[i])).walkable by {
            assert(qq[i] == q[i]);
        }
        if q.len() - 2 > 0 {
            assert(self.spec_cell(q[q.len() - 2]).walkable);
        }
        let last = q.len() - 1;
        assert(taxi_spec(q[last - 1], q[last]) == 1);
    }

    /// Entering a fresh cell keeps every entered cell entered at the same
    /// step, and so keeps the walks already accounted for.
    proof fn lemma_enter_keeps(&self, came: Seq<usize>, order: Seq<int>, i: int, p: usize, v: int, from: Coord, to: Coord, d: int, lim: int)
        requires
            self.wf(),
            came.len() == self.cells@.len(),
            order.len() == came.len(),
            0 <= i < came.len(),
            came[i] == usize::MAX,
            p != usize::MAX,
            self.near_ok(came, order, from, d),
            self.done_below(came, order, to, lim),
            lim <= v,
        ensures
            self.near_ok(came.update(i, p), order.update(i, v), from, d),
            self.done_below(came.update(i, p), order.update(i, v), to, lim),
            forall|c: Coord| self.spec_in_bounds(c) && #[trigger] self.entered(came, c) ==> self.entered(came.update(i, p), c)
                && order.update(i, v)[flat_index(self.width as int, c)] == order[flat_index(self.width as int, c)],
    {
        let w = self.width as int;
        let c2 = came.update(i, p);
        let o2 = order.update(i, v);
        assert forall|c: Coord| self.spec_in_bounds(c) && #[trigger] self.entered(came, c) implies self.entered(c2, c)
            && o2[flat_index(w, c)] == order[flat_index(w, c)] by {
            lemma_flat_index(w, self.height as int, c);
        }
        assert forall|q: Seq<Coord>, c: Coord|
            #[trigger] self.is_path(q, from, c) && q.len() <= d + 1 && (c == from || self.spec_cell(c).walkable) implies self.entered(c2, c)
                && o2[flat_index(w, c)] <= q.len() - 1 by {
            assert(self.spec_in_bounds(q[q.len() - 1]));
            lemma_flat_index(w, self.height as int, c);
            assert(self.entered(came, c));
        }
        assert forall|c: Coord|
            self.spec_in_bounds(c) && #[trigger] self.entered(c2, c) && o2[flat_index(w, c)] < lim implies self.expanded(c2, c, to) by {
            lemma_flat_index(w, self.height as int, c);
            if flat_index(w, c) == i {
                assert(o2[i] == v);
            } else {
                assert(self.entered(came, c));
                assert forall|k: int| 0 <= k < came.len() && came[k] != usize::MAX implies #[trigger] c2[k] != usize::MAX by {}
                self.lemma_expanded_grows(came, c2, c, to);
            }
        }
    }

    /// Walk the `came_from` links back from `end` to the start.
    fn rebuild(&self, came_from: &Vec<usize>, Ghost(order): Ghost<Seq<int>>, start: usize, from: Coord, end: usize, to: Coord) -> (p: Vec<Coord>)
        requires
            self.wf(),
            self.spec_in_bounds(from),
            self.spec_in_bounds(to),
            self.search_ok(came_from@, order, start, from),
            0 <= end < came_from@.len(),
            came_from@[end as int] != usize::MAX,
            end != start ==> self.spec_cell(coord_of(self.width as int, end as int)).walkable,
            taxi_spec(to, coord_of(self.width as int, end as int)) == 1,
            self.steps_ok(came_from@, order, start as int),
        ensures
            self.is_path(p@, from, to),
            p@.len() == order[end as int] + 2,
    {
        let w = self.width;
        proof {
            lemma_flat_index(w as int, self.height as int, from);
        }
        let mut rev: Vec<Coord> = Vec::new();
        rev.push(to);
        let mut cursor = end;
        while cursor != start
            invariant
                self.wf(),
                w == self.spec_width(),
                self.spec_in_bounds(from),
                self.spec_in_bounds(to),
                self.search_ok(came_from@, order, start, from),
                0 <= cursor < came_from@.len(),
                came_from@[cursor as int] != usize::MAX,
                self.steps_ok(came_from@, order, start as int),
                rev@.len() + order[cursor as int] == order[end as int] + 1,
                rev@.len() >= 1,
                rev@[0] == to,
                taxi_spec(rev@[rev@.len() - 1], coord_of(w as int, cursor as int)) == 1,
                cursor != start ==> self.spec_cell(coord_of(w as int, cursor as int)).walkable,
                forall|i: int| 0 <= i < rev@.len() ==> self.spec_in_bounds(#[trigger] rev@[i]),
                forall|i: int| 0 < i < rev@.len() ==> taxi_spec(#[trigger] rev@[i - 1], rev@[i]) == 1,
                forall|i: int| 0 < i < rev@.len() ==> (#[trigger] self.spec_cell(rev@[i])).walkable,
            decreases order[cursor as int],
        {
            proof {
                assert(self.link_ok(came_from@, order, cursor as int));
            }
            let c = self.coord_of_index(cursor);
            rev.push(c);
            cursor = came_from[cursor];
            proof {
                if cursor != start {
                    assert(self.link_ok(came_from@, order, cursor as int));
                }
            }
        }
        proof {
            lemma_flat_index(w as int, self.height as int, from);
            assert(coord_of(w as int, start as int) == from);
        }
        rev.push(from);
        let n = rev.len();
        let mut p: Vec<Coord> = Vec::new();
        let mut i = n;
        while i > 0
            invariant
                i <= n,
                n == rev@.len(),
                p@.len() == n - i,
                forall|j: int| 0 <= j < p@.len() ==> #[trigger] p@[j] == rev@[n - 1 - j],
            decreases i,
        {
            i = i - 1;
            p.push(rev[i]);
        }
        proof {
            assert forall|j: int| 0 < j < p@.len() implies taxi_spec(#[trigger] p@[j - 1], p@[j]) == 1 by {
                assert(p@[j - 1] == rev@[n - j]);
                assert(p@[j] == rev@[n - 1 - j]);
                assert(taxi_spec(rev@[n - j - 1], rev@[n - j]) == 1);
            }
            assert forall|j: int| 0 < j < p@.len() - 1 implies (#[trigger] self.spec_cell(p@[j])).walkable by {
                assert(p@[j] == rev@[n - 1 - j]);
            }
        }
        p
    }
}

impl Grid {
    /// Every in-bounds cell one step from `c` is among its neighbours, and
    /// every neighbour is on the map one step away.
    pub proof fn lemma_adjacent_spec(&self, c: Coord)
        requires
            self.wf(),
        ensures
            forall|n: Coord| self.spec_in_bounds(n) && taxi_spec(c, n) == 1 ==> #[trigger] self.adjacent_spec(c, false).contains(n),
            forall|k: int| 0 <= k < self.adjacent_spec(c, false).len() ==> self.spec_in_bounds(#[trigger] self.adjacent_spec(c, false)[k]) && taxi_spec(c, self.adjacent_spec(c, false)[k]) == 1,
    {
        let a = self.keep_if(c.x - 1, c.y as int, false);
        let b = self.keep_if(c.x + 1, c.y as int, false);
        let u = self.keep_if(c.x as int, c.y - 1, false);
        let d = self.keep_if(c.x as int, c.y + 1, false);
        let s = self.adjacent_spec(c, false);
        assert(s == a + b + u + d);
        assert forall|n: Coord| self.spec_in_bounds(n) && taxi_spec(c, n) == 1 implies #[trigger] s.contains(n) by {
            if n.x == c.x - 1 {
                assert(s[0] == n);
            } else if n.x == c.x + 1 {
                assert(s[a.len() as int] == n);
            } else if n.y == c.y - 1 {
                assert(s[(a.len() + b.len()) as int] == n);
            } else {
                assert(s[(a.len() + b.len() + u.len()) as int] == n);
            }
        }
        assert forall|k: int| 0 <= k < s.len() implies self.spec_in_bounds(#[trigger] s[k]) && taxi_spec(c, s[k]) == 1 by {
            if k < a.len() {
                assert(s[k] == a[k]);
            } else if k < a.len() + b.len() {
                assert(s[k] == b[k - a.len()]);
            } else if k < a.len() + b.len() + u.len() {
                assert(s[k] == u[k - a.len() - b.len()]);
            } else {
                assert(s[k] == d[k - a.len() - b.len() - u.len()]);
            }
        }
    }

    /// No neighbour is listed twice.
    pub proof fn lemma_adjacent_distinct(&self, c: Coord, walkable_only: bool)
        requires
            self.wf(),
        ensures
            forall|i: int, j: int|
                0 <= i < j < self.adjacent_spec(c, walkable_only).len() ==> #[trigger] self.adjacent_spec(c, walkable_only)[i]
                    != #[trigger] self.adjacent_spec(c, walkable_only)[j],
            self.adjacent_spec(c, walkable_only).len() <= 4,
    {
        let a = self.keep_if(c.x - 1, c.y as int, walkable_only);
        let b = self.keep_if(c.x + 1, c.y as int, walkable_only);
        let u = self.keep_if(c.x as int, c.y - 1, walkable_only);
        let d = self.keep_if(c.x as int, c.y + 1, walkable_only);
        let s = self.adjacent_spec(c, walkable_only);
        assert(s == a + b + u + d);
        assert forall|i: int, j: int| 0 <= i < j < s.len() implies #[trigger] s[i] != #[trigger] s[j] by {
            let la = a.len() as int;
            let lb = b.len() as int;
            let lu = u.len() as int;
            let pick = |k: int|
                if k < la {
                    a[k]
                } else if k < la + lb {
                    b[k - la]
                } else if k < la + lb + lu {
                    u[k - la - lb]
                } else {
                    d[k - la - lb - lu]
                };
            assert(s[i] == pick(i));
            assert(s[j] == pick(j));
        }
    }

    /// The walkable neighbours of `c` are exactly the walkable in-bounds
    /// cells one step from it.
    pub proof fn lemma_adjacent_walkable_spec(&self, c: Coord)
        requires
            self.wf(),
        ensures
            forall|n: Coord|
                self.spec_in_bounds(n) && taxi_spec(c, n) == 1 && self.spec_cell(n).walkable ==> #[trigger] self.adjacent_spec(
                    c,
                    true,
                ).contains(n),
            forall|k: int|
                0 <= k < self.adjacent_spec(c, true).len() ==> self.spec_in_bounds(#[trigger] self.adjacent_spec(c, true)[k])
                    && taxi_spec(c, self.adjacent_spec(c, true)[k]) == 1 && self.spec_cell(self.adjacent_spec(c, true)[k]).walkable,
    {
        let a = self.keep_if(c.x - 1, c.y as int, true);
        let b = self.keep_if(c.x + 1, c.y as int, true);
        let u = self.keep_if(c.x as int, c.y - 1, true);
        let d = self.keep_if(c.x as int, c.y + 1, true);
        let s = self.adjacent_spec(c, true);
        assert(s == a + b + u + d);
        assert forall|n: Coord| self.spec_in_bounds(n) && taxi_spec(c, n) == 1 && self.spec_cell(n).walkable implies #[trigger] s.contains(n) by {
            if n.x == c.x - 1 {
                assert(s[0] == n);
            } else if n.x == c.x + 1 {
                assert(s[a.len() as int] == n);
            } else if n.y == c.y - 1 {
                assert(s[(a.len() + b.len()) as int] == n);
            } else {
                assert(s[(a.len() + b.len() + u.len()) as int] == n);
            }
        }
        assert forall|k: int| 0 <= k < s.len() implies self.spec_in_bounds(#[trigger] s[k]) && taxi_spec(c, s[k]) == 1
            && self.spec_cell(s[k]).walkable by {
            if k < a.len() {
                assert(s[k] == a[k]);
            } else if k < a.len() + b.len() {
                assert(s[k] == b[k - a.len()]);
            } else if k < a.len() + b.len() + u.len() {
                assert(s[k] == u[k - a.len() - b.len()]);
            } else {
                assert(s[k] == d[k - a.len() - b.len() - u.len()]);
            }
        }
    }

    /// A walk that starts in a closed region of the search cannot leave it.
    proof fn lemma_walk_stays_visited(&self, came_from: Seq<usize>, from: Coord, to: Coord, q: Seq<Coord>, i: int)
        requires
            self.wf(),
            came_from.len() == self.cells@.len(),
            self.is_path(q, from, to),
            self.entered(came_from, from),
            forall|c: Coord| self.spec_in_bounds(c) && self.entered(came_from, c) ==> #[trigger] self.expanded(came_from, c, to),
            0 <= i < q.len() - 1,
        ensures
            self.entered(came_from, q[i]),
        decreases i,
    {
        if i > 0 {
            self.lemma_walk_stays_visited(came_from, from, to, q, i - 1);
            assert(self.expanded(came_from, q[i - 1], to));
            assert(self.step_ok(q[i - 1], q[i]));
            assert(self.spec_cell(q[i]).walkable);
        }
    }

    /// Entering more cells never undoes an expansion.
    proof fn lemma_expanded_grows(&self, a: Seq<usize>, b: Seq<usize>, c: Coord, to: Coord)
        requires
            a.len() == b.len(),
            forall|k: int| 0 <= k < a.len() && a[k] != usize::MAX ==> #[trigger] b[k] != usize::MAX,
            self.wf(),
            a.len() == self.cells@.len(),
            self.expanded(a, c, to),
        ensures
            self.expanded(b, c, to),
    {
        assert forall|n: Coord| #[trigger] self.step_ok(c, n) implies n != to && (self.spec_cell(n).walkable ==> self.entered(b, n)) by {
            assert(n != to);
            if self.spec_cell(n).walkable {
                lemma_flat_index(self.width as int, self.height as int, n);
                assert(self.entered(a, n));
                assert(b[flat_index(self.width as int, n)] != usize::MAX);
            }
        }
    }

    /// Entering a walkable neighbour of an entered cell keeps the search
    /// consistent.
    proof fn lemma_enter(&self, cf: Seq<usize>, order: Seq<int>, t: int, start: usize, from: Coord, i: usize, at_i: usize, next: Coord, at: Coord)
        requires
            self.wf(),
            self.search_ok(cf, order, start, from),
            self.spec_in_bounds(next),
            self.spec_in_bounds(at),
            i == flat_index(self.spec_width(), next),
            at_i == flat_index(self.spec_width(), at),
            taxi_spec(at, next) == 1,
            self.spec_cell(next).walkable,
            cf[i as int] == usize::MAX,
            cf[at_i as int] != usize::MAX,
            0 <= order[at_i as int] <= t,
            forall|j: int| 0 <= j < cf.len() && cf[j] != usize::MAX ==> 0 <= #[trigger] order[j],
        ensures
            self.search_ok(cf.update(i as int, at_i), order.update(i as int, t + 1), start, from),
    {
        let w = self.spec_width();
        lemma_flat_index(w, self.spec_height(), next);
        lemma_flat_index(w, self.spec_height(), at);
        assert(coord_of(w, i as int) == next);
        assert(coord_of(w, at_i as int) == at);
        let cf2 = cf.update(i as int, at_i);
        let o2 = order.update(i as int, t + 1);
        assert(i != start);
        assert forall|j: int| 0 <= j < cf2.len() && cf2[j] != usize::MAX && j != start implies #[trigger] self.link_ok(cf2, o2, j) by {
            if j == i {
                assert(cf2[j] == at_i);
                assert(at_i != i);
            } else {
                assert(cf2[j] == cf[j]);
                assert(self.link_ok(cf, order, j));
                assert(cf[j] as int != i);
            }
        }
    }

    /// A search that has expanded everything it entered, without entering the
    /// target, proves there is no way through.
    proof fn lemma_no_path(&self, came_from: Seq<usize>, from: Coord, to: Coord)
        requires
            self.wf(),
            self.spec_in_bounds(from),
            self.spec_in_bounds(to),
            from != to,
            came_from.len() == self.cells@.len(),
            self.entered(came_from, from),
            forall|c: Coord| self.spec_in_bounds(c) && self.entered(came_from, c) ==> #[trigger] self.expanded(came_from, c, to),
        ensures
            !self.reachable(from, to),
    {
        assert forall|q: Seq<Coord>| !#[trigger] self.is_path(q, from, to) by {
            if self.is_path(q, from, to) {
                self.lemma_walk_stays_visited(came_from, from, to, q, q.len() - 2);
                let last = q[q.len() - 2];
                assert(self.expanded(came_from, last, to));
                let i = q.len() - 1;
                assert(taxi_spec(q[i - 1], q[i]) == 1);
                assert(self.step_ok(last, q[i]));
            }
        }
    }

    /// Shortest 4-way path from `from` to `to`, both ends included.
    ///
    /// Intermediate cells must be walkable; the endpoints are forced passable,
    /// so a path can be found to and from an occupied cell. A path is found
    /// exactly when one exists.
    #[verifier::rlimit(60)]
    pub fn shortest_path(&self, from: Coord, to: Coord) -> (r: Option<Vec<Coord>>)
        requires
            self.wf(),
        ensures
            r is Some ==> self.is_path(r->0@, from, to),
            r is Some <==> (self.spec_in_bounds(from) && self.spec_in_bounds(to) && self.reachable(from, to)),
            self.spec_in_bounds(from) && from == to ==> r is Some && r->0@ == seq![from],
            r matches Some(p) ==> forall|q: Seq<Coord>| #[trigger] self.is_path(q, from, to) ==> p@.len() <= q.len(),
    {
        if !self.in_bounds(from) || !self.in_bounds(to) {
            proof {
                assert forall|p: Seq<Coord>| !#[trigger] self.is_path(p, from, to) by {
                    if self.is_path(p, from, to) {
                        assert(self.spec_in_bounds(p[0]));
                        assert(self.spec_in_bounds(p[p.len() - 1]));
                    }
                }
            }
            return None;
        }
        if from == to {
            let mut p = Vec::new();
            p.push(from);
            proof {
                assert(self.is_path(p@, from, to));
            }
            return Some(p);
        }
        let n = self.cells.len();
        let mut came_from: Vec<usize> = Vec::new();
        while came_from.len() < n
            invariant
                came_from@.len() <= n,
                forall|i: int| 0 <= i < came_from@.len() ==> #[trigger] came_from@[i] == usize::MAX,
            decreases n - came_from.len(),
        {
            came_from.push(usize::MAX);
        }
        let ghost w = self.spec_width();
        let ghost h = self.spec_height();
        let start = self.index(from);
        let to_i = self.index(to);
        proof {
            lemma_flat_index(w, h, from);
            lemma_flat_index(w, h, to);
            assert(start != to_i);
            lemma_count_none(came_from@);
            lemma_count_update(came_from@, start as int, start);
        }
        came_from.set(start, start);
        let ghost mut order: Seq<int> = Seq::new(n as nat, |i: int| 0int);
        let ghost mut d: int = 0;
        let mut layer: Vec<Coord> = Vec::new();
        layer.push(from);
        proof {
            assert(coord_of(w, start as int) == from);
            assert forall|q: Seq<Coord>, c: Coord|
                #[trigger] self.is_path(q, from, c) && q.len() <= d + 1 && (c == from || self.spec_cell(c).walkable) implies self.entered(
                came_from@,
                c,
            ) && order[flat_index(self.width as int, c)] <= q.len() - 1 by {
                assert(c == q[0]);
            }
            assert forall|c: Coord| self.spec_in_bounds(c) && #[trigger] self.entered(came_from@, c) && order[flat_index(
                self.width as int,
                c,
            )] < d implies self.expanded(came_from@, c, to) by {
                lemma_flat_index(w, h, c);
            }
            assert forall|c: Coord| self.spec_in_bounds(c) && #[trigger] self.entered(came_from@, c) && order[flat_index(
                self.width as int,
                c,
            )] == d implies layer@.contains(c) by {
                lemma_flat_index(w, h, c);
                if c != from {
                    assert(flat_index(w, c) != start);
                }
                assert(layer@[0] == from);
            }
        }
        loop
            invariant
                self.wf(),
                w == self.spec_width(),
                h == self.spec_height(),
                self.spec_in_bounds(from),
                self.spec_in_bounds(to),
                from != to,
                n == self.cells@.len(),
                start == flat_index(w, from),
                to_i == flat_index(w, to),
                start < n,
                to_i < n,
                came_from@.len() == n,
                order.len() == n,
                0 <= d,
                self.search_ok(came_from@, order, start, from),
                self.steps_ok(came_from@, order, start as int),
                self.within(came_from@, order, d),
                came_from@[to_i as int] == usize::MAX,
                count_entered(came_from@) <= n,
                forall|k: int|
                    0 <= k < layer@.len() ==> self.spec_in_bounds(#[trigger] layer@[k]) && self.entered(came_from@, layer@[k])
                        && order[flat_index(w, layer@[k])] == d,
                forall|c: Coord|
                    self.spec_in_bounds(c) && #[trigger] self.entered(came_from@, c) && order[flat_index(w, c)] == d
                        ==> layer@.contains(c),
                self.done_below(came_from@, order, to, d),
                self.near_ok(came_from@, order, from, d),
            decreases n - count_entered(came_from@), if layer@.len() > 0 {
                1int
            } else {
                0int
            },
        {
            if layer.len() == 0 {
                proof {
                    assert forall|c: Coord| self.spec_in_bounds(c) && self.entered(came_from@, c) implies #[trigger] self.expanded(
                        came_from@,
                        c,
                        to,
                    ) by {
                        lemma_flat_index(w, h, c);
                        assert(came_from@[flat_index(w, c)] != usize::MAX);
                        if order[flat_index(w, c)] == d {
                            assert(layer@.contains(c));
                        }
                    }
                    assert(came_from@[start as int] != usize::MAX);
                    self.lemma_no_path(came_from@, from, to);
                }
                return None;
            }
            let ghost c0 = count_entered(came_from@);
            let mut next: Vec<Coord> = Vec::new();
            proof {
                assert forall|c: Coord|
                    self.spec_in_bounds(c) && #[trigger] self.entered(came_from@, c) && order[flat_index(w, c)] == d + 1
                        implies next@.contains(c) by {
                    lemma_flat_index(w, h, c);
                    assert(came_from@[flat_index(w, c)] != usize::MAX);
                }
            }
            let mut k: usize = 0;
            while k < layer.len()
                invariant
                    self.wf(),
                    w == self.spec_width(),
                    h == self.spec_height(),
                    self.spec_in_bounds(from),
                    self.spec_in_bounds(to),
                    from != to,
                    n == self.cells@.len(),
                    start == flat_index(w, from),
                    to_i == flat_index(w, to),
                    start < n,
                    to_i < n,
                    came_from@.len() == n,
                    order.len() == n,
                    0 <= d,
                    k <= layer@.len(),
                    self.search_ok(came_from@, order, start, from),
                    self.steps_ok(came_from@, order, start as int),
                    self.within(came_from@, order, d + 1),
                    came_from@[to_i as int] == usize::MAX,
                    count_entered(came_from@) == c0 + next@.len(),
                    c0 <= n,
                    forall|kk: int|
                        0 <= kk < layer@.len() ==> self.spec_in_bounds(#[trigger] layer@[kk]) && self.entered(came_from@, layer@[kk])
                            && order[flat_index(w, layer@[kk])] == d,
                    forall|c: Coord|
                        self.spec_in_bounds(c) && #[trigger] self.entered(came_from@, c) && order[flat_index(w, c)] == d
                            ==> layer@.contains(c),
                    forall|kk: int|
                        0 <= kk < next@.len() ==> self.spec_in_bounds(#[trigger] next@[kk]) && self.entered(came_from@, next@[kk])
                            && order[flat_index(w, next@[kk])] == d + 1,
                    forall|c: Coord|
                        self.spec_in_bounds(c) && #[trigger] self.entered(came_from@, c) && order[flat_index(w, c)] == d + 1
                            ==> next@.contains(c),
                    forall|kk: int| 0 <= kk < k ==> #[trigger] self.expanded(came_from@, layer@[kk], to),
                    self.done_below(came_from@, order, to, d),
                    self.near_ok(came_from@, order, from, d),
                decreases layer@.len() - k,
            {
                let at = layer[k];
                let at_i = self.index(at);
                let around = self.adjacent(at);
                proof {
                    self.lemma_adjacent_spec(at);
                    lemma_flat_index(w, h, at);
                    assert(self.entered(came_from@, layer@[k as int]));
                    if at_i != start {
                        assert(self.link_ok(came_from@, order, at_i as int));
                    }
                }
                let mut j: usize = 0;
                while j < around.len()
                    invariant
                        self.wf(),
                        w == self.spec_width(),
                        h == self.spec_height(),
                        self.spec_in_bounds(from),
                        self.spec_in_bounds(to),
                        from != to,
                        n == self.cells@.len(),
                        start == flat_index(w, from),
                        to_i == flat_index(w, to),
                        start < n,
                        to_i < n,
                        came_from@.len() == n,
                        order.len() == n,
                        0 <= d,
                        k < layer@.len(),
                        j <= around@.len(),
                        at == layer@[k as int],
                        at_i == flat_index(w, at),
                        at_i < n,
                        self.spec_in_bounds(at),
                        coord_of(w, at_i as int) == at,
                        came_from@[at_i as int] != usize::MAX,
                        order[at_i as int] == d,
                        at_i != start ==> self.spec_cell(at).walkable,
                        around@ == self.adjacent_spec(at, false),
                        forall|m: int| 0 <= m < around@.len() ==> self.spec_in_bounds(#[trigger] around@[m]) && taxi_spec(at, around@[m]) == 1,
                        self.search_ok(came_from@, order, start, from),
                        self.steps_ok(came_from@, order, start as int),
                        self.within(came_from@, order, d + 1),
                        came_from@[to_i as int] == usize::MAX,
                        count_entered(came_from@) == c0 + next@.len(),
                        c0 <= n,
                        forall|kk: int|
                            0 <= kk < layer@.len() ==> self.spec_in_bounds(#[trigger] layer@[kk]) && self.entered(came_from@, layer@[kk])
                                && order[flat_index(w, layer@[kk])] == d,
                        forall|c: Coord|
                            self.spec_in_bounds(c) && #[trigger] self.entered(came_from@, c) && order[flat_index(w, c)] == d
                                ==> layer@.contains(c),
                        forall|kk: int|
                            0 <= kk < next@.len() ==> self.spec_in_bounds(#[trigger] next@[kk]) && self.entered(came_from@, next@[kk])
                                && order[flat_index(w, next@[kk])] == d + 1,
                        forall|c: Coord|
                            self.spec_in_bounds(c) && #[trigger] self.entered(came_from@, c) && order[flat_index(w, c)] == d + 1
                                ==> next@.contains(c),
                        forall|kk: int| 0 <= kk < k ==> #[trigger] self.expanded(came_from@, layer@[kk], to),
                        forall|m: int|
                            0 <= m < j ==> #[trigger] around@[m] != to && (self.spec_cell(around@[m]).walkable ==> self.entered(
                                came_from@,
                                around@[m],
                            )),
                        self.done_below(came_from@, order, to, d),
                        self.near_ok(came_from@, order, from, d),
                    decreases around@.len() - j,
                {
                    let nb = around[j];
                    let i = self.index(nb);
                    if came_from[i] == usize::MAX && (self.walkable(nb) || nb == to) {
                        if nb == to {
                            proof {
                                assert(taxi_spec(to, coord_of(w, at_i as int)) == 1);
                            }
                            let p = self.rebuild(&came_from, Ghost(order), start, from, at_i, to);
                            proof {
                                assert forall|q: Seq<Coord>| #[trigger] self.is_path(q, from, to) implies p@.len() <= q.len() by {
                                    if q.len() < d + 2 {
                                        self.lemma_walk_prefix(q, from, to);
                                        let pp = q[q.len() - 2];
                                        let qq = q.subrange(0, q.len() - 1);
                                        assert(self.is_path(qq, from, pp));
                                        lemma_flat_index(w, h, pp);
                                        assert(self.entered(came_from@, pp));
                                        assert(self.expanded(came_from@, pp, to));
                                        assert(self.step_ok(pp, to));
                                    }
                                }
                            }
                            return Some(p);
                        }
                        let ghost cf = came_from@;
                        let ghost od = order;
                        let ghost nx0 = next@;
                        proof {
                            lemma_flat_index(w, h, nb);
                            assert(i != to_i) by {
                                if i == to_i {
                                    lemma_flat_index(w, h, to);
                                    assert(coord_of(w, i as int) == nb);
                                    assert(coord_of(w, to_i as int) == to);
                                }
                            }
                            assert forall|jj: int| 0 <= jj < cf.len() && cf[jj] != usize::MAX implies 0 <= #[trigger] od[jj] by {}
                            self.lemma_enter(cf, od, d, start, from, i, at_i, nb, at);
                            self.lemma_enter_keeps(cf, od, i as int, at_i, d + 1, from, to, d, d);
                            lemma_count_update(cf, i as int, at_i);
                        }
                        came_from.set(i, at_i);
                        proof {
                            order = order.update(i as int, d + 1);
                        }
                        next.push(nb);
                        proof {
                            let c2 = came_from@;
                            assert(next@[next@.len() - 1] == nb);
                            assert(c2[i as int] == at_i);
                            assert forall|ii: int| 0 <= ii < c2.len() && #[trigger] c2[ii] != usize::MAX implies 0 <= order[ii]
                                <= d + 1 by {
                                if ii != i {
                                    assert(cf[ii] != usize::MAX);
                                }
                            }
                            assert forall|ii: int|
                                0 <= ii < c2.len() && #[trigger] c2[ii] != usize::MAX && ii != start implies order[c2[ii] as int] + 1
                                == order[ii] by {
                                if ii != i {
                                    assert(cf[ii] != usize::MAX);
                                    assert(self.link_ok(cf, od, ii));
                                    assert(cf[cf[ii] as int] != usize::MAX);
                                }
                            }
                            assert forall|kk: int|
                                0 <= kk < layer@.len() implies self.spec_in_bounds(#[trigger] layer@[kk]) && self.entered(
                                came_from@,
                                layer@[kk],
                            ) && order[flat_index(w, layer@[kk])] == d by {
                                assert(self.entered(cf, layer@[kk]));
                            }
                            assert forall|c: Coord|
                                self.spec_in_bounds(c) && #[trigger] self.entered(came_from@, c) && order[flat_index(w, c)] == d
                                    implies layer@.contains(c) by {
                                lemma_flat_index(w, h, c);
                                if flat_index(w, c) != i {
                                    assert(self.entered(cf, c));
                                }
                            }
                            assert forall|kk: int|
                                0 <= kk < next@.len() implies self.spec_in_bounds(#[trigger] next@[kk]) && self.entered(
                                came_from@,
                                next@[kk],
                            ) && order[flat_index(w, next@[kk])] == d + 1 by {
                                if kk < next@.len() - 1 {
                                    assert(next@[kk] == nx0[kk]);
                                    assert(self.entered(cf, nx0[kk]));
                                    lemma_flat_index(w, h, nx0[kk]);
                                } else {
                                    assert(next@[kk] == nb);
                                }
                            }
                            assert forall|c: Coord|
                                self.spec_in_bounds(c) && #[trigger] self.entered(came_from@, c) && order[flat_index(w, c)] == d + 1
                                    implies next@.contains(c) by {
                                lemma_flat_index(w, h, c);
                                if flat_index(w, c) != i {
                                    assert(self.entered(cf, c));
                                    assert(nx0.contains(c));
                                    let kk = choose|kk: int| 0 <= kk < nx0.len() && nx0[kk] == c;
                                    assert(next@[kk] == c);
                                } else {
                                    assert(coord_of(w, i as int) == c);
                                    assert(next@[next@.len() - 1] == c);
                                }
                            }
                            assert forall|kk: int| 0 <= kk < k implies #[trigger] self.expanded(came_from@, layer@[kk], to) by {
                                assert forall|q: int| 0 <= q < cf.len() && cf[q] != usize::MAX implies #[trigger] came_from@[q]
                                    != usize::MAX by {}
                                self.lemma_expanded_grows(cf, came_from@, layer@[kk], to);
                            }
                            assert forall|m: int|
                                0 <= m < j + 1 implies #[trigger] around@[m] != to && (self.spec_cell(around@[m]).walkable
                                ==> self.entered(came_from@, around@[m])) by {
                                lemma_flat_index(w, h, around@[m]);
                                if m < j {
                                    if self.spec_cell(around@[m]).walkable {
                                        assert(self.entered(cf, around@[m]));
                                    }
                                } else {
                                    assert(around@[m] == nb);
                                    assert(came_from@[flat_index(w, nb)] != usize::MAX);
                                }
                            }
                        }
                    } else {
                        proof {
                            if nb == to {
                                assert(came_from@[to_i as int] == usize::MAX);
                            }
                        }
                    }
                    j = j + 1;
                }
                proof {
                    assert forall|nn: Coord| #[trigger] self.step_ok(at, nn) implies nn != to && (self.spec_cell(nn).walkable
                        ==> self.entered(came_from@, nn)) by {
                        assert(self.adjacent_spec(at, false).contains(nn));
                        let m = choose|m: int| 0 <= m < around@.len() && around@[m] == nn;
                        assert(around@[m] == nn);
                    }
                    assert(self.expanded(came_from@, at, to));
                    assert forall|kk: int| 0 <= kk < k + 1 implies #[trigger] self.expanded(came_from@, layer@[kk], to) by {}
                }
                k = k + 1;
            }
            proof {
                lemma_count_le(came_from@);
                assert forall|c: Coord|
                    self.spec_in_bounds(c) && #[trigger] self.entered(came_from@, c) && order[flat_index(w, c)] < d + 1 implies self.expanded(
                    came_from@,
                    c,
                    to,
                ) by {
                    if order[flat_index(w, c)] == d {
                        assert(layer@.contains(c));
                        let kk = choose|kk: int| 0 <= kk < layer@.len() && layer@[kk] == c;
                        assert(self.expanded(came_from@, layer@[kk], to));
                    }
                }
                assert forall|q: Seq<Coord>, c: Coord|
                    #[trigger] self.is_path(q, from, c) && q.len() <= d + 2 && (c == from || self.spec_cell(c).walkable) implies self.entered(
                    came_from@,
                    c,
                ) && order[flat_index(w, c)] <= q.len() - 1 by {
                    lemma_flat_index(w, h, c);
                    if q.len() <= d + 1 {
                    } else if c == from {
                        assert(came_from@[start as int] != usize::MAX);
                    } else {
                        self.lemma_walk_prefix(q, from, c);
                        let pp = q[q.len() - 2];
                        let qq = q.subrange(0, q.len() - 1);
                        assert(self.is_path(qq, from, pp));
                        lemma_flat_index(w, h, pp);
                        assert(self.entered(came_from@, pp));
                        assert(self.expanded(came_from@, pp, to));
                        assert(self.step_ok(pp, c));
                        assert(came_from@[flat_index(w, c)] != usize::MAX);
                    }
                }
            }
            layer = next;
            proof {
                d = d + 1;
            }
        }
    }
}

/// How many cells a search has entered: the slots not holding the sentinel.
pub open spec fn count_entered(s: Seq<usize>) -> nat
    decreases s.len(),
{
    if s.len() == 0 {
        0
    } else {
        count_entered(s.drop_last()) + (if s.last() != usize::MAX { 1nat } else { 0nat })
    }
}

/// A search cannot have entered more cells than there are.
pub proof fn lemma_count_le(s: Seq<usize>)
    ensures
        count_entered(s) <= s.len(),
    decreases s.len(),
{
    if s.len() > 0 {
        lemma_count_le(s.drop_last());
    }
}

/// A search that has entered nothing counts zero.
pub proof fn lemma_count_none(s: Seq<usize>)
    requires
        forall|i: int| 0 <= i < s.len() ==> s[i] == usize::MAX,
    ensures
        count_entered(s) == 0,
    decreases s.len(),
{
    if s.len() > 0 {
        lemma_count_none(s.drop_last());
    }
}

/// Entering one more cell counts one more.
pub proof fn lemma_count_update(s: Seq<usize>, i: int, v: usize)
    requires
        0 <= i < s.len(),
        s[i] == usize::MAX,
        v != usize::MAX,
    ensures
        count_entered(s.update(i, v)) == count_entered(s) + 1,
    decreases s.len(),
{
    let u = s.update(i, v);
    if i == s.len() - 1 {
        assert(u.drop_last() =~= s.drop_last());
    } else {
        assert(u.drop_last() =~= s.drop_last().update(i, v));
        lemma_count_update(s.drop_last(), i, v);
    }
}

/// fastrand's generator, carried through unopened.
#[verifier::external_type_specification]
#[verifier::external_body]
pub struct ExRng(Rng);

/// Calls `fastrand::Rng::i32` with the range `min..=max`.
///
/// fastrand draws `min` plus a value below the range's length, so the result
/// lies in the range; which value comes out depends on the generator's
/// state and is not stated. An empty range panics, hence the `requires`.
#[verifier::external_body]
fn rng_i32_inclusive(rng: &mut Rng, min: i32, max: i32) -> (r: i32)
    requires
        min <= max,
    ensures
        min <= r <= max,
{
    rng.i32(min..=max)
}

/// Uniform integer in `[min, max]`, **both ends included**.
///
/// An empty or inverted range collapses to `min` rather than panicking,
/// because several call sites pass `len - 1` for a list that may be empty.
pub fn rand_inclusive(rng: &mut Rng, min: i32, max: i32) -> (r: i32)
    ensures
        max <= min ==> r == min,
        min < max ==> min <= r <= max,
{
    if max <= min {
        min
    } else {
        rng_i32_inclusive(rng, min, max)
    }
}

/// Uniform index into a list of `len` items, or `None` when it is empty.
pub fn rand_index(rng: &mut Rng, len: usize) -> (r: Option<usize>)
    requires
        len <= i32::MAX,
    ensures
        r is None <==> len == 0,
        r matches Some(i) ==> i < len,
{
    if len == 0 {
        None
    } else {
        let v = rand_inclusive(rng, 0, len as i32 - 1);
        Some(v as usize)
    }
}
} // verus!
