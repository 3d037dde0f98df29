//! A pseudo-random number generator driven by the Rule-30 elementary
//! cellular automaton on a ring of 32 cells.
//!
//! The automaton state is one `u32`. Each draw reads the centre cell and then
//! advances the automaton by one step; wider values are assembled from
//! consecutive draws, least significant bit first.

pub mod error;
pub mod r30;
pub mod rule;
pub mod stream;

pub use error::R30Error;
pub use r30::R30;
