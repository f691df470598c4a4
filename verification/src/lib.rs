//! Host-side core of a controller for a two-motor, belt-driven pen plotter.
//!
//! The crate compiles pen movements into a compact binary motor-step
//! instruction stream, validates and chunks that stream into buffers sized to
//! the firmware's on-device queue, and decides each step of the pull-driven
//! session protocol that feeds those chunks to the firmware.

pub mod client;
pub mod instruction;
pub mod methods;
pub mod stipple;
pub mod surface;
