//! A verified Minesweeper minefield engine: board generation with
//! adjacency-count derivation, flood-fill reveal, flag toggling, and
//! win/loss evaluation on a rectangular grid of cells.

pub mod cell;
pub mod model;
pub mod engine;
pub mod rng;
pub mod laws;
