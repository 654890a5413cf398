//! A two-team territory-capture simulation on a hexagonal board.
//!
//! Discs bounce around a flat-top hex grid; each disc paints the hexes within its radius in
//! its team's color, scoring a point per hex it turns, and bounces back off the territory it
//! invades. All arithmetic is on integers:
//! - lengths are in thousandths of a board unit (`grid::UNIT` per unit);
//! - velocities are in those length units per second;
//! - time is in microseconds;
//! - the time-scale multiplier is in hundredths;
//! - a unit direction has length `grid::DIR_ONE`.
pub mod fixed;
pub mod grid;
pub mod disc;
pub mod collide;
pub mod sim;
