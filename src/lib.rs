//! Nonogram solving and generation: run-length line model, constraint
//! propagation, a seeded generator, interactive assist and GIF framing.

pub mod line;
pub mod deduce;
pub mod solver;
pub mod generator;
pub mod gif;
pub mod assist;

