//! A falling-sand cellular automaton: a grid of material cells and the
//! per-material rules that move and transform them, frame by frame.
pub mod config;
pub mod grid;
pub mod rules;
pub mod laws;
mod random;
