//! Microscopic traffic simulation core: vehicles and obstacles on lanes,
//! a car-following law, lane and transfer-lane state machines, and the
//! obstacle projections exchanged between neighbouring lanes.
//!
//! Continuous quantities (positions, velocities, accelerations, time steps)
//! are fixed-point integers counted in thousandths of a unit.
pub mod obstacle;
pub mod following;
pub mod signal;
pub mod lane;
pub mod resolver;
pub mod tick;
pub mod transfer;
