//! The exact palette every tile is drawn with.
//!
//! The derived entries were computed in normalised float space and are given
//! here already resolved: `BODY_SLIME` is `PATH_SLIME * 0.75` rounded, and
//! `CALCIUM` is deep water scaled per channel.

use vstd::prelude::*;

use super::Rgb;

verus! {


/// Background of an explored but unlit floor cell.
pub const FLOOR_BACKGROUND: Rgb = [0, 0, 0];
/// Foreground of an explored but unlit floor cell.
pub const FLOOR: Rgb = [71, 62, 45];
/// Background of a lit floor cell, and of anything with no slime on it.
pub const FLOOR_BACKGROUND_FOV: Rgb = [20, 12, 28];
/// Foreground of a lit floor cell.
pub const FLOOR_FOV: Rgb = [129, 121, 107];
/// Background of an explored but unlit wall.
pub const WALL_BACKGROUND: Rgb = [31, 38, 47];
/// Foreground of an explored but unlit wall.
pub const WALL: Rgb = [72, 77, 85];
/// Background of a lit wall.
pub const WALL_BACKGROUND_FOV: Rgb = [51, 56, 64];
/// Foreground of a lit wall.
pub const WALL_FOV: Rgb = [93, 97, 105];
/// Headings and other bright interface text.
pub const TEXT_HEADING: Rgb = [222, 238, 214];
/// Ordinary interface text.
pub const TEXT_BODY: Rgb = [210, 125, 44];
/// The brightest thing on screen.
pub const SUPER_BRIGHT: Rgb = [222, 238, 214];
/// A nucleus that is not the one under your control.
pub const PLAYER_INACTIVE: Rgb = [88, 56, 72];
/// Cytoplasm and everything grown from a nutrient.
pub const SLIME: Rgb = [109, 170, 44];
/// The gravity core, which needs to read as heavy.
pub const DARK_SLIME: Rgb = [52, 101, 36];
/// Background of an organelle that will move when you do.
pub const PATH_SLIME: Rgb = [132, 190, 56];
/// Background of an organelle that is merely part of you.
pub const BODY_SLIME: Rgb = [99, 143, 42];
/// A city gate you can see.
pub const CITY: Rgb = [133, 149, 161];
/// A human that is about to act.
pub const MILITIA: Rgb = [210, 125, 44];
/// A human that is still recovering from acting.
pub const RESTING_MILITIA: Rgb = [133, 76, 48];
/// Bone, and everything built out of it.
pub const CALCIUM: Rgb = [107, 113, 247];
/// An armoured human that is still recovering from acting.
pub const RESTING_TANK: Rgb = [48, 52, 109];
/// Circuitry, and everything built out of it.
pub const ELECTRONICS: Rgb = [218, 212, 94];
/// A hunter's targeting mark.
pub const RETICLE_FOREGROUND: Rgb = [208, 70, 72];
/// Behind a hunter's targeting mark.
pub const RETICLE_BACKGROUND: Rgb = [68, 36, 52];
/// The first thing of each organelle line, before any upgrade.
pub const ROOT_ORGANELLE: Rgb = [208, 70, 72];
/// Raw human-made materials lying on the floor.
pub const ORGANELLE_INACTIVE: Rgb = [133, 149, 161];
/// The examine cursor.
pub const CURSOR: Rgb = [255, 127, 255];
/// Behind the examine cursor.
pub const DARK_CURSOR: Rgb = [255, 0, 255];
/// A digestion bar that has banked a free product.
pub const OVERFILL: Rgb = [109, 194, 202];
/// Behind the organelle sidebar.
pub const ORGANELLE_CONSOLE_BG: Rgb = [6, 26, 0];
/// A remembered city gate, seen once and now out of sight.
pub const DB_STONE: Rgb = [117, 113, 97];

} // verus!
