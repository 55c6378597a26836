//! Ants walking on a bounded line, simulated event by event.
//!
//! Every ant walks at the same speed towards one end of the line. Two ants
//! that meet head-on both turn around; an ant that reaches an end leaves.
//! The crate finds the next such event, applies it, and runs an ensemble
//! until the line is empty. Positions live on an integer grid, so every
//! statement the crate makes about a run is exact.

pub mod grid;
pub mod event;
pub mod error;
pub mod state;
pub mod walks;
pub mod dynamics;
pub mod ensemble;
pub mod driver;
pub mod laws;
pub mod sampling;
pub mod order;
