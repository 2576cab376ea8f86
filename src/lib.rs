//! A multi-population Physarum simulation over toroidal trail fields, in
//! fixed-point integer arithmetic.
//!
//! Positions are measured in sub-cell units (`grid::SUBCELLS` per cell),
//! trail intensities are unsigned integers, attraction weights are signed
//! integers, and headings are indices into a table of unit vectors.
mod grid;
mod model;
pub mod lemmas;

pub use grid::{combine, Grid, PopulationConfig, DECAY_ONE, MAX_DIM, SUBCELLS};
pub use model::{particles_per_population, Particle, PhysarumModel, HEADING_ONE};
