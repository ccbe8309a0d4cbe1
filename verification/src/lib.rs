//! A deterministic snake game on a fixed square grid, with scripted policies
//! that play whole episodes and record them as state/action sequences.

pub mod actions;
pub mod data;
pub mod grid;
pub mod laws;
pub mod model;
pub mod rng;
pub mod snake;
pub mod transition;
pub mod validate;
