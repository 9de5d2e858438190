//! A parallel escape-time fractal engine: palette selection, the colouring of
//! escape counts, a row cursor for pull-based work distribution, a frame buffer
//! that records which rows were written, and the tile grid used for
//! progressive delivery.

pub mod color;
pub mod palette;
pub mod kernel;
pub mod schedule;
pub mod frame;
pub mod tiles;
pub mod models;
