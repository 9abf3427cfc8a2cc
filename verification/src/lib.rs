//! A scheduler for per-cell work on a two-dimensional grid.
//!
//! A grid of `width * height` cells is cut into resumable work units
//! (single cells, rows, columns and nested tiles), the units are handed
//! to a pool of workers, and every worker produces one cell result per
//! step until its unit is used up.

pub mod gui;
pub mod raytracing;
pub mod workers;
