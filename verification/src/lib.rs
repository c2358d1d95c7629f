//! A solver for a line of lights with cascading flip dependencies.
//!
//! A `Lights` value is a fixed-length row of on/off switches. A switch may
//! only be flipped directly when a positional condition on the switches to
//! its right holds; otherwise a chain of prerequisite flips must happen
//! first. `get_min_steps` counts the flips a deterministic greedy pass
//! performs to turn one row into another.

pub mod lights;
pub mod solver;

pub use lights::{Lights, SolverError, MAX_LIGHTS};
pub use solver::get_min_steps;
