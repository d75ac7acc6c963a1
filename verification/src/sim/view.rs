//! What a frontend draws: the value types that describe one frame.
//!
//! Everything a renderer needs arrives resolved, so it can draw a cell
//! without knowing that maws or gates exist. Progress bars and the turn
//! counter arrive as whole numbers; turning them into fractions is the
//! renderer's business.

use vstd::prelude::*;

use super::actors::{palette, IntentKind, Rgb};
use super::grid::Coord;
use super::{Phase, UiMode};

verus! {

/// Code page 437 glyph 16: aiming to the right.
pub const ARROW_RIGHT: char = '\u{25BA}';

/// Code page 437 glyph 17: aiming to the left.
pub const ARROW_LEFT: char = '\u{25C4}';

/// Code page 437 glyph 30: aiming up.
pub const ARROW_UP: char = '\u{25B2}';

/// Code page 437 glyph 31: aiming down.
pub const ARROW_DOWN: char = '\u{25BC}';

/// Animation frames per blink step. Blinking things are on for three frames
/// and off for three.
pub const BLINK_SPEED: u32 = 3;

/// Steps in a blink cycle.
pub const BLINK_FRAMES: u32 = 2;

/// One drawn map cell.
#[derive(Clone, Copy, PartialEq, Eq, Debug)]
pub struct CellView {
    /// The character to draw. Space means nothing is there.
    pub glyph: char,
    /// Foreground colour.
    pub fg: Rgb,
    /// Background colour.
    pub bg: Rgb,
}

/// How full a bar is, as a count out of a whole: the bar reads `part`
/// over `whole`, held to the range zero to one, or one minus that when it
/// counts down.
#[derive(Clone, Copy, PartialEq, Eq, Structural, Debug)]
pub struct Gauge {
    /// The count.
    pub part: i32,
    /// What the count is out of; never below one.
    pub whole: i32,
    /// The bar empties as the count grows.
    pub counts_down: bool,
}

/// A progress bar under a sidebar entry.
#[derive(Clone, Copy, PartialEq, Eq, Debug)]
pub struct Meter {
    /// How full.
    pub level: Gauge,
    /// Colour of the filled part.
    pub fill: Rgb,
    /// Colour of the empty part.
    pub empty: Rgb,
    /// A second, banked level drawn over the top: a dissolving human that
    /// has already earned a free product.
    pub overfill: Option<Gauge>,
}

/// One row of the organelle sidebar.
#[derive(Clone, PartialEq, Debug)]
pub struct OrganelleEntry {
    /// Display name.
    pub name: String,
    /// Flavour text, for whichever panel is showing descriptions.
    pub description: String,
    /// The colour this organelle draws in. The gravity core's dark green is
    /// remapped to ordinary slime here so the row stays readable.
    pub fg: Rgb,
    /// Where it is, so a frontend can point at it.
    pub pos: Coord,
    /// The organelle browser's cursor is on this row.
    pub selected: bool,
    /// The examine cursor is over this organelle.
    pub examined: bool,
    /// Nucleus navigation hint: `@` for the active one, `A` and `D` for the
    /// ones the cycle keys reach. Only set when there is more than one.
    pub nucleus_hint: Option<char>,
    /// Production, digestion or crafting progress.
    pub bar: Option<Meter>,
}

/// One human's committed next move, ready to be drawn over its head: not a
/// guess about what it might do, but what it has already committed to.
#[derive(Clone, Copy, PartialEq, Eq, Structural, Debug)]
pub struct Telegraph {
    /// The cell the human is standing on.
    pub from: Coord,
    /// The cell it has committed to.
    pub to: Coord,
    /// What it means to do there.
    pub kind: IntentKind,
}

/// Something the examine cursor can report on.
#[derive(Clone, PartialEq, Eq, Debug)]
pub struct Described {
    /// Display name.
    pub name: String,
    /// Flavour text.
    pub description: String,
    /// Extra lines: upgrade hints, and what it is standing on.
    pub detail: Vec<String>,
    /// The colour the name should be drawn in.
    pub color: Rgb,
}

/// The examine cursor and whatever it is over.
#[derive(Clone, PartialEq, Eq, Debug)]
pub struct ExamineView {
    /// Where the cursor is.
    pub pos: Coord,
    /// What it can see there, if anything.
    pub target: Option<Described>,
}

/// The numbers along the top of the sidebar.
#[derive(Clone, PartialEq, Eq, Debug)]
pub struct Status {
    /// Time elapsed, in schedule ticks: the highest the clock has shown, so
    /// it never decreases even though winning rewinds the clock.
    pub time: u64,
    /// Organelles in the mass. This is also the score, and what a city's
    /// armour is measured against.
    pub mass: usize,
    /// Gates still standing.
    pub cities_remaining: usize,
    /// Gates that must come down for this difficulty.
    pub cities_required: i32,
    /// Mass needed to break the next gate. Goes up with every gate that falls.
    pub city_armor: i32,
    /// The nucleus under your control.
    pub active_nucleus: Option<(String, Coord)>,
}

/// Everything a frontend needs to draw one frame.
#[derive(Clone, PartialEq, Debug)]
pub struct RenderView {
    /// Map columns.
    pub width: i32,
    /// Map rows.
    pub height: i32,
    /// Row-major map cells.
    pub cells: Vec<CellView>,
    /// The last few message-log lines, oldest first.
    pub messages: Vec<String>,
    /// The organelle sidebar.
    pub organelles: Vec<OrganelleEntry>,
    /// Header numbers.
    pub status: Status,
    /// The examine cursor, when examine mode is open.
    pub examine: Option<ExamineView>,
    /// Cells that will move when you do. Already reflected in the cell
    /// backgrounds; here as well so a frontend can do something else with it.
    pub highlight: Vec<Coord>,
    /// Cells a hunter or scout is aiming at. Already blinking in the cells;
    /// here as well so a frontend can warn about them some other way.
    pub reticles: Vec<Coord>,
    /// What every human in sight has committed to doing next.
    pub telegraphs: Vec<Telegraph>,
    /// Where the run is.
    pub phase: Phase,
    /// Which panel is open.
    pub mode: UiMode,
}

impl RenderView {
    /// The cell at `(x, y)`, if it is on the map.
    pub fn cell(&self, x: i32, y: i32) -> (r: Option<CellView>)
        ensures
            (x < 0 || y < 0 || x >= self.width || y >= self.height) ==> r is None,
            0 <= x < self.width && 0 <= y < self.height && (y * self.width + x) < self.cells@.len() ==> r == Some(
                self.cells@[y * self.width + x],
            ),
            0 <= x < self.width && 0 <= y < self.height && (y * self.width + x) >= self.cells@.len() ==> r is None,
    {
        if x < 0 || y < 0 || x >= self.width || y >= self.height {
            return None;
        }
        proof {
            let yy: int = y as int;
            let ww: int = self.width as int;
            assert(0 <= yy * ww <= 0x4000_0000_0000_0000) by (nonlinear_arith)
                requires
                    0 <= yy <= 0x8000_0000,
                    0 <= ww <= 0x8000_0000,
            ;
        }
        let i: i64 = y as i64 * self.width as i64 + x as i64;
        if (i as u64) < (self.cells.len() as u64) {
            Some(self.cells[i as usize])
        } else {
            None
        }
    }
}

/// The background a cell of this alignment is drawn on.
pub open spec fn slime_bg(slime: u8) -> Rgb {
    if slime == 0 {
        palette::FLOOR_BACKGROUND_FOV
    } else if slime == 1 {
        palette::BODY_SLIME
    } else if slime == 2 {
        palette::PATH_SLIME
    } else {
        palette::FLOOR_BACKGROUND
    }
}

/// Backgrounds are driven by how player-aligned a cell is.
pub fn slime_background(slime: u8) -> (r: Rgb)
    ensures
        r == slime_bg(slime),
{
    if slime == 0 {
        palette::FLOOR_BACKGROUND_FOV
    } else if slime == 1 {
        palette::BODY_SLIME
    } else if slime == 2 {
        palette::PATH_SLIME
    } else {
        palette::FLOOR_BACKGROUND
    }
}

/// The arrow a ranged human aiming along `d` shows.
pub open spec fn arrow_for(d: Coord) -> char {
    if d.x > 0 {
        ARROW_RIGHT
    } else if d.x < 0 {
        ARROW_LEFT
    } else if d.y > 0 {
        ARROW_DOWN
    } else {
        ARROW_UP
    }
}

/// One decimal digit, or a star for anything past nine.
pub open spec fn digit_or_star(n: u64) -> char {
    if n < 10 {
        ((48 + n) as u8) as char
    } else {
        '*'
    }
}

/// The executable form of [`digit_or_star`].
pub fn digit(n: u64) -> (c: char)
    ensures
        c == digit_or_star(n),
{
    match n {
        0 => '0',
        1 => '1',
        2 => '2',
        3 => '3',
        4 => '4',
        5 => '5',
        6 => '6',
        7 => '7',
        8 => '8',
        9 => '9',
        _ => '*',
    }
}

/// Whether an animation frame falls on the lit half of a blink.
pub open spec fn blink_lit(anim_frame: u32) -> bool {
    (anim_frame / BLINK_SPEED) % BLINK_FRAMES == 0
}

} // verus!
