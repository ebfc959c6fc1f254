//! A verified simulator for the migration of an injected buoyant fluid
//! (CO2) through a layered subsurface reservoir, recorded as a sequence
//! of fill snapshots.

pub mod state;
pub mod grid;
pub mod utils;
pub mod depth_queue;
pub mod model;
pub mod injection_simulation;
pub mod laws;
