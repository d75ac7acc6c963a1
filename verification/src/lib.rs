//! A roguelike about a giant, evolving amoeba: the deterministic simulation
//! layer, with its rules proved.

pub mod sim;
pub mod synth;
pub mod tileset;
