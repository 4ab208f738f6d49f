//! The verified core of a terminal flame effect: the heat ramp, the fire
//! cellular automaton, and the integer rules that place sparks, stars, the
//! logo and the lens flares on the terminal grid.

pub mod ascent;
pub mod field;
pub mod logo;
pub mod palette;
pub mod render;
pub mod sparks;
pub mod stars;
