//! The code page 437 lookup that makes a font atlas usable.
//!
//! The sim hands out glyphs as `char`s; a CP437 atlas indexes them by their
//! code page byte. For everything printable that is the same number, which is
//! why [`cp437`] is mostly the identity; the interesting part is the handful
//! of drawing characters the game reaches for, chiefly the arrows a charging
//! hunter shows.

use vstd::prelude::*;

verus! {

/// Glyphs per atlas row, and per atlas column.
pub const GRID: u8 = 16;

/// What an unmapped character draws as.
const UNKNOWN: u8 = 63;

/// Every character the game draws that is not printable ASCII, with its code
/// page 437 index: the four arrows a hunter or scout shows while lining a
/// shot up, then shading and block characters for panel furniture.
pub open spec fn extras_table() -> Seq<(char, u8)> {
    seq![
        ('\u{2022}', 7u8),
        ('\u{25BA}', 16u8),
        ('\u{25C4}', 17u8),
        ('\u{25B2}', 30u8),
        ('\u{25BC}', 31u8),
        ('\u{2591}', 176u8),
        ('\u{2592}', 177u8),
        ('\u{2593}', 178u8),
        ('\u{2588}', 219u8),
        ('\u{2584}', 220u8),
        ('\u{2580}', 223u8),
    ]
}

/// The table of extra characters and their code page indices.
pub fn extras() -> (r: &'static [(char, u8)])
    ensures
        r@ == extras_table(),
{
    let r: &'static [(char, u8)] = &[
        ('\u{2022}', 7u8),
        ('\u{25BA}', 16u8),
        ('\u{25C4}', 17u8),
        ('\u{25B2}', 30u8),
        ('\u{25BC}', 31u8),
        ('\u{2591}', 176u8),
        ('\u{2592}', 177u8),
        ('\u{2593}', 178u8),
        ('\u{2588}', 219u8),
        ('\u{2584}', 220u8),
        ('\u{2580}', 223u8),
    ];
    proof {
        assert(r@ =~= extras_table());
    }
    r
}

/// Printable ASCII: the space and everything from `!` to `~`.
pub open spec fn printable(ch: char) -> bool {
    ch == ' ' || ('!' <= ch && ch <= '~')
}

/// The index of the first table entry for `ch` at or after `from`, if any.
pub open spec fn find_extra(t: Seq<(char, u8)>, ch: char, from: int) -> Option<u8>
    decreases t.len() - from,
{
    if from < 0 || from >= t.len() {
        None
    } else if t[from].0 == ch {
        Some(t[from].1)
    } else {
        find_extra(t, ch, from + 1)
    }
}

/// Where `ch` lives in code page 437: printable ASCII maps to itself, the
/// listed extras to their index, anything else to `?`.
pub open spec fn cp437_spec(ch: char) -> u8 {
    if printable(ch) {
        ch as u8
    } else {
        match find_extra(extras_table(), ch, 0) {
            Some(i) => i,
            None => 63u8,
        }
    }
}

/// Where `ch` lives in the code page.
///
/// Printable ASCII is code page 437's own first half, one index for one
/// codepoint; everything else has to be looked up, and anything unlisted
/// becomes `?` rather than an arbitrary box-drawing character.
pub fn cp437(ch: char) -> (r: u8)
    ensures
        r == cp437_spec(ch),
{
    if ch == ' ' || ('!' <= ch && ch <= '~') {
        let code = ch as u32;
        return code as u8;
    }
    let table = extras();
    let mut i: usize = 0;
    while i < table.len()
        invariant
            table@ == extras_table(),
            i <= table@.len(),
            find_extra(extras_table(), ch, 0) == find_extra(extras_table(), ch, i as int),
        decreases table@.len() - i,
    {
        let (extra, index) = table[i];
        if extra == ch {
            return index;
        }
        i = i + 1;
    }
    UNKNOWN
}

/// The mean of a pixel's three colour channels. The atlas is grey on black,
/// so this is the glyph's coverage.
pub fn luminance(pixel: [u8; 4]) -> (r: u8)
    ensures
        r == (pixel[0] + pixel[1] + pixel[2]) / 3,
{
    let sum: u16 = pixel[0] as u16 + pixel[1] as u16 + pixel[2] as u16;
    (sum / 3) as u8
}

/// No character is listed twice, and no index is handed out twice.
pub proof fn law_extras_are_distinct()
    ensures
        forall|i: int, j: int|
            0 <= i < j < extras_table().len() ==> extras_table()[i].0 != extras_table()[j].0
                && extras_table()[i].1 != extras_table()[j].1,
{
}

/// Every index `cp437` hands out addresses a cell of a sixteen-by-sixteen
/// atlas, and printable ASCII is its own index.
pub proof fn law_cp437_lands_in_the_atlas(ch: char)
    ensures
        cp437_spec(ch) / 16 < 16,
        cp437_spec(ch) % 16 < 16,
        printable(ch) ==> cp437_spec(ch) == ch as u32,
{
}

} // verus!
