//! The per-unit simulation state.
//!
//! A unit carries its position, collision radius, an optional destination
//! with a moving flag, a stuck timer, an optional gather task and an
//! inventory. Orders replace the destination and task wholesale, so a unit
//! never follows two orders at once.

use vstd::prelude::*;
use crate::grid::{Pos3, in_field};
use crate::gathering::GatherTask;
use crate::inventory::Inventory;

verus! {

/// Upper bound on a unit's collision radius, in milli-units.
pub const MAX_RADIUS_MU: i64 = 10_000;

/// A controllable unit.
#[derive(Debug)]
pub struct Unit {
    /// World position in milli-units.
    pub pos: Pos3,
    /// Collision radius in milli-units.
    pub radius: i64,
    /// Current movement destination, if any.
    pub dest: Option<Pos3>,
    /// Whether the unit is translating toward its destination.
    pub moving: bool,
    /// Milliseconds without progress toward the destination.
    pub stuck_ms: u32,
    /// Formation leader: wins destination arbitration outright.
    pub primary: bool,
    /// Whether soft unit-unit repulsion applies to this unit.
    pub allow_overlap: bool,
    /// Last direction of travel, unnormalised (milli-units on each axis).
    pub heading_x: i64,
    /// Last direction of travel, unnormalised (milli-units on each axis).
    pub heading_z: i64,
    /// In-progress gather order, if any.
    pub task: Option<GatherTask>,
    /// The unit's inventory.
    pub inventory: Inventory,
}

impl Unit {
    /// Shape every unit keeps across the simulation.
    pub open spec fn wf(self) -> bool {
        &&& in_field(self.pos)
        &&& 1 <= self.radius <= MAX_RADIUS_MU
        &&& (self.dest is Some ==> in_field(self.dest->0))
        &&& (self.moving ==> self.dest is Some)
        &&& (self.task is Some ==> self.task->0.wf())
        &&& self.inventory.wf()
    }

    /// Builds an idle unit at `pos`.
    pub fn new(pos: Pos3, radius: i64) -> (r: Unit)
        requires
            in_field(pos),
            1 <= radius <= MAX_RADIUS_MU,
        ensures
            r.wf(),
            r.pos == pos,
            r.radius == radius,
            r.dest is None,
            !r.moving,
            r.stuck_ms == 0,
            !r.primary,
            !r.allow_overlap,
            r.task is None,
            r.heading_x == 0 && r.heading_z == 0,
            crate::inventory::cnt_used(r.inventory.slots@) == 0,
    {
        Unit {
            pos,
            radius,
            dest: Option::None,
            moving: false,
            stuck_ms: 0,
            primary: false,
            allow_overlap: false,
            heading_x: 0,
            heading_z: 0,
            task: Option::None,
            inventory: Inventory::new(),
        }
    }

    /// Replaces any current order with a plain movement order toward
    /// `target`, which callers have already snapped to the grid. The old
    /// destination and gather task are cleared before the new one is set.
    pub fn order_move(&mut self, target: Pos3, primary: bool)
        requires
            old(self).wf(),
            in_field(target),
        ensures
            final(self).wf(),
            *final(self) == (Unit {
                dest: Option::Some(target),
                moving: true,
                stuck_ms: 0,
                primary: primary,
                task: Option::None,
                ..*old(self)
            }),
    {
        self.task = Option::None;
        self.dest = Option::Some(target);
        self.moving = true;
        self.stuck_ms = 0;
        self.primary = primary;
    }
}

} // verus!
