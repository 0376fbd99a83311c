//! Simulation core for a small real-time-strategy game: grid-snapped
//! movement with destination arbitration, obstacle avoidance, a
//! resource-gathering state machine, and slotted unit inventories.
//!
//! World positions are fixed-point integers: one grid unit is 1000
//! milli-units, so all geometry is exact and every rule of the
//! simulation carries a proved contract.

pub mod grid;
pub mod items;
pub mod inventory;
pub mod unit;
pub mod gathering;
pub mod arbitration;
pub mod movement;
pub mod world;
pub mod orders;
pub mod selection;
pub mod rng;
pub mod spawn;
pub mod rays;
