//! The resource-gathering state machine.
//!
//! A gather order attaches a task in the `Walking` state and a destination
//! at the node. Within gather range the unit stops and harvests on a
//! repeating timer, one item per completed period, against the node's
//! shared `remaining` pool; a full inventory parks the task in `Full`,
//! and a depleted or vanished node drops the task.

use vstd::prelude::*;
use crate::grid::{Pos3, in_field, dist_sq_3d_spec, dist_sq_3d, snap_spec, snap_to_grid};
use crate::items::{ResourceKind, ItemId, ItemStack, item_of_kind};
use crate::inventory::{
    INV_SLOTS, cnt_used, cnt_item, lemma_slot_accounting, lemma_no_top_room_for_unit_stacks,
};
use crate::unit::Unit;

verus! {

/// State of an in-progress gather order.
#[derive(Clone, Copy, PartialEq, Eq, Structural, Debug)]
pub enum GatherState {
    Walking,
    Harvesting,
    Full,
}

/// What one gathering step did to one unit.
#[derive(Clone, Copy, PartialEq, Eq, Structural, Debug)]
pub enum GatherOutcome {
    /// The unit has no gather task.
    NoTask,
    /// The task was dropped: its node vanished or was depleted.
    TaskDropped,
    /// Still walking toward the node.
    KeptWalking,
    /// Came within gather range and stopped to harvest.
    StartedHarvest,
    /// Fell out of gather range and resumed walking.
    ResumedWalk,
    /// The inventory filled up; the task parked in `Full`.
    BecameFull,
    /// Parked in `Full`, waiting for a fresh order.
    Idle,
    /// Harvest timer still running; nothing gathered this step.
    Waited,
    /// One item was gathered and the node debited.
    Harvested,
}

/// A transient gather order: target node, repeating harvest timer, state.
#[derive(Clone, Copy, PartialEq, Eq, Structural, Debug)]
pub struct GatherTask {
    /// Index of the target node in the node arena.
    pub target: usize,
    /// Harvest timer period, in milliseconds.
    pub period_ms: u32,
    /// Time accumulated toward the next harvest, in milliseconds.
    pub elapsed_ms: u32,
    /// Discrete state of the order.
    pub state: GatherState,
}

impl GatherTask {
    /// A task's timer stays strictly inside its period.
    pub open spec fn wf(self) -> bool {
        &&& 1 <= self.period_ms <= 1_000_000
        &&& self.elapsed_ms < self.period_ms
    }

    /// Builds a task in the `Walking` state whose harvest period is the
    /// reciprocal of the gather rate (given in milli-items per second).
    pub fn new(target: usize, gather_rate_milli: u32) -> (r: GatherTask)
        requires
            1 <= gather_rate_milli <= 1_000_000,
        ensures
            r.wf(),
            r.target == target,
            r.period_ms == 1_000_000u32 / gather_rate_milli,
            r.elapsed_ms == 0,
            r.state == GatherState::Walking,
    {
        proof {
            assert(1 <= 1_000_000u32 / gather_rate_milli <= 1_000_000) by (nonlinear_arith)
                requires 1 <= gather_rate_milli <= 1_000_000u32;
        }
        GatherTask {
            target,
            period_ms: 1_000_000 / gather_rate_milli,
            elapsed_ms: 0,
            state: GatherState::Walking,
        }
    }
}

/// A gatherable node in the world: kind, shared remaining pool, gather
/// rate and the proximity required to harvest.
#[derive(Clone, Copy, PartialEq, Eq, Structural, Debug)]
pub struct ResourceNode {
    pub kind: ResourceKind,
    pub remaining: u32,
    /// Gather rate in milli-items per second.
    pub gather_rate_milli: u32,
    /// Harvest proximity in milli-units.
    pub gather_radius: i64,
    /// World position in milli-units.
    pub pos: Pos3,
}

impl ResourceNode {
    /// Shape every node keeps.
    pub open spec fn wf(self) -> bool {
        &&& in_field(self.pos)
        &&& 1 <= self.gather_rate_milli <= 1_000_000
        &&& 0 <= self.gather_radius <= 1_000_000
    }

    /// Builds a node.
    pub fn new(
        kind: ResourceKind,
        remaining: u32,
        gather_rate_milli: u32,
        gather_radius: i64,
        pos: Pos3,
    ) -> (r: ResourceNode)
        requires
            1 <= gather_rate_milli <= 1_000_000,
            0 <= gather_radius <= 1_000_000,
            in_field(pos),
        ensures
            r.wf(),
            r == (ResourceNode { kind, remaining, gather_rate_milli, gather_radius, pos }),
    {
        ResourceNode { kind, remaining, gather_rate_milli, gather_radius, pos }
    }
}

/// Every node in the arena keeps its shape.
pub open spec fn nodes_wf(ns: Seq<ResourceNode>) -> bool {
    forall|k: int| 0 <= k < ns.len() ==> (#[trigger] ns[k]).wf()
}

/// The unit stands within the node's gather radius.
pub open spec fn within_reach(u: Unit, n: ResourceNode) -> bool {
    dist_sq_3d_spec(u.pos, n.pos) <= n.gather_radius * n.gather_radius
}

/// Total items held across all slots, whatever their kind.
pub open spec fn cnt_total(s: Seq<Option<ItemStack>>) -> int
    decreases s.len(),
{
    if s.len() == 0 {
        0
    } else {
        cnt_total(s.drop_last()) + match s.last() {
            Option::Some(st) => st.qty as int,
            Option::None => 0,
        }
    }
}

/// The total item count is the count over the three item kinds.
pub proof fn lemma_total_split(s: Seq<Option<ItemStack>>)
    ensures
        cnt_total(s) == cnt_item(s, ItemId::CopperOre) + cnt_item(s, ItemId::TinOre) + cnt_item(
            s,
            ItemId::Logs,
        ),
    decreases s.len(),
{
    if s.len() > 0 {
        lemma_total_split(s.drop_last());
    }
}

/// Issues a gather order for `unit` against node `target`, replacing any
/// current movement or gather order. The order is rejected, leaving the
/// unit exactly as it was, when the unit's inventory is already full or
/// the node reference does not resolve.
pub fn issue_gather_task(
    unit: &mut Unit,
    target: usize,
    nodes: &Vec<ResourceNode>,
) -> (accepted: bool)
    requires
        old(unit).wf(),
        nodes_wf(nodes@),
    ensures
        final(unit).wf(),
        accepted == (target < nodes@.len() && cnt_used(old(unit).inventory.slots@) < INV_SLOTS),
        !accepted ==> *final(unit) == *old(unit),
        accepted ==> *final(unit) == (Unit {
            dest: Option::Some(snap_spec(nodes@[target as int].pos)),
            moving: true,
            stuck_ms: 0,
            task: Option::Some(
                GatherTask {
                    target,
                    period_ms: 1_000_000u32 / nodes@[target as int].gather_rate_milli,
                    elapsed_ms: 0,
                    state: GatherState::Walking,
                },
            ),
            ..*old(unit)
        }),
{
    proof {
        lemma_slot_accounting(unit.inventory.slots@, ItemId::Logs, 1);
    }
    if target >= nodes.len() {
        return false;
    }
    if unit.inventory.is_full() {
        return false;
    }
    let node = nodes[target];
    let task = GatherTask::new(target, node.gather_rate_milli);
    unit.task = Option::Some(task);
    unit.dest = Option::Some(snap_to_grid(node.pos));
    unit.moving = true;
    unit.stuck_ms = 0;
    true
}

/// What one gathering step does to one unit and the node arena:
/// the complete transition relation of the state machine, tying the
/// outcome, the unit's next state and the nodes' next state to the
/// unit's prior state and the arena it saw.
pub open spec fn gather_step_rel(
    u0: Unit,
    n0: Seq<ResourceNode>,
    u1: Unit,
    n1: Seq<ResourceNode>,
    r: GatherOutcome,
    dt_ms: u32,
) -> bool {
    &&& (n1.len() == n0.len())
    &&& (u1.pos == u0.pos)
    &&& (u1.radius == u0.radius)
    &&& (r != GatherOutcome::ResumedWalk ==> u1.dest == u0.dest)
    &&& (u1.primary == u0.primary)
    &&& (u1.allow_overlap == u0.allow_overlap)
    &&& (u1.stuck_ms == u0.stuck_ms)
    &&& (// Only the targeted node may change, and only by losing items to
        // this unit's inventory.
        forall|k: int|
            0 <= k < n0.len() && !(u0.task is Some && k == u0.task->0.target) ==> n1[k] == n0[k])
    &&& (forall|k: int| 0 <= k < n0.len() ==> {
            &&& (#[trigger] n1[k]).kind == n0[k].kind
            &&& n1[k].gather_rate_milli == n0[k].gather_rate_milli
            &&& n1[k].gather_radius == n0[k].gather_radius
            &&& n1[k].pos == n0[k].pos
            &&& n1[k].remaining <= n0[k].remaining
        })
    &&& (u0.task is Some && u0.task->0.target < n0.len() ==> cnt_total(
            u1.inventory.slots@,
        ) - cnt_total(u0.inventory.slots@) == n0[u0.task->0.target as int].remaining - n1[u0.task->0.target as int].remaining)
    &&& (!(u0.task is Some && u0.task->0.target < n0.len())
            ==> u1.inventory.slots@ == u0.inventory.slots@ && n1 == n0)
    &&& (r == GatherOutcome::Harvested ==> cnt_total(u1.inventory.slots@) == cnt_total(
            u0.inventory.slots@,
        ) + 1)
    &&& (r != GatherOutcome::Harvested ==> u1.inventory.slots@ == u0.inventory.slots@ && n1 == n0)
    &&& (// The transition relation, case by case.
        u0.task is None ==> u1 == u0 && r == GatherOutcome::NoTask)
    &&& ((u0.task is Some && u0.task->0.target >= n0.len()) ==> u1
            == (Unit { task: Option::None, ..u0 }) && r == GatherOutcome::TaskDropped)
    &&& (({
            let t = u0.task->0;
            let nd = n0[t.target as int];
            u0.task is Some && t.target < n0.len() ==> {
                &&& (t.state == GatherState::Walking && within_reach(u0, nd) ==> u1 == (Unit {
                    moving: false,
                    task: Option::Some(GatherTask { state: GatherState::Harvesting, ..t }),
                    ..u0
                }) && r == GatherOutcome::StartedHarvest)
                &&& (t.state == GatherState::Walking && !within_reach(u0, nd) ==> u1 == u0 && r == GatherOutcome::KeptWalking)
                &&& (t.state == GatherState::Full ==> u1 == u0 && r
                    == GatherOutcome::Idle)
                &&& (t.state == GatherState::Harvesting && !within_reach(u0, nd)
                    ==> u1 == (Unit {
                    moving: true,
                    dest: Option::Some(snap_spec(nd.pos)),
                    task: Option::Some(GatherTask { state: GatherState::Walking, ..t }),
                    ..u0
                }) && r == GatherOutcome::ResumedWalk)
                &&& (t.state == GatherState::Harvesting && within_reach(u0, nd)
                    && cnt_used(u0.inventory.slots@) == INV_SLOTS ==> u1 == (Unit {
                    task: Option::Some(GatherTask { state: GatherState::Full, ..t }),
                    ..u0
                }) && r == GatherOutcome::BecameFull)
                &&& (t.state == GatherState::Harvesting && within_reach(u0, nd)
                    && cnt_used(u0.inventory.slots@) < INV_SLOTS && nd.remaining == 0
                    ==> u1 == (Unit { task: Option::None, ..u0 }) && r
                    == GatherOutcome::TaskDropped)
                &&& (t.state == GatherState::Harvesting && within_reach(u0, nd)
                    && cnt_used(u0.inventory.slots@) < INV_SLOTS && nd.remaining > 0
                    && t.elapsed_ms + dt_ms < t.period_ms ==> u1 == (Unit {
                    task: Option::Some(
                        GatherTask { elapsed_ms: (t.elapsed_ms + dt_ms) as u32, ..t },
                    ),
                    ..u0
                }) && r == GatherOutcome::Waited)
                &&& (t.state == GatherState::Harvesting && within_reach(u0, nd)
                    && cnt_used(u0.inventory.slots@) < INV_SLOTS && nd.remaining > 0
                    && t.elapsed_ms + dt_ms >= t.period_ms ==> {
                    &&& r == GatherOutcome::Harvested
                    &&& u1.task == Option::Some(
                        GatherTask {
                            elapsed_ms: ((t.elapsed_ms + dt_ms) as u32 % t.period_ms) as u32,
                            ..t
                        },
                    )
                    &&& u1.moving == u0.moving
                    &&& n1[t.target as int].remaining == nd.remaining - 1
                    &&& cnt_item(u1.inventory.slots@, item_of_kind(nd.kind)) == cnt_item(
                        u0.inventory.slots@,
                        item_of_kind(nd.kind),
                    ) + 1
                    &&& forall|oid: ItemId| oid != item_of_kind(nd.kind) ==> cnt_item(
                        u1.inventory.slots@,
                        oid,
                    ) == cnt_item(u0.inventory.slots@, oid)
                    &&& cnt_used(u1.inventory.slots@) == cnt_used(
                        u0.inventory.slots@,
                    ) + 1
                })
            }
        }))
}

/// Runs one gathering step for one unit against the node arena.
///
/// The transition relation, stated in full by the `ensures`, covers the
/// state machine: from `Walking` only `Harvesting` (proximity) or task
/// removal (vanished node) is reachable; from `Harvesting` only `Walking`
/// (range loss), `Full` (inventory full) or task removal (depletion or
/// vanished node); `Full` has no outgoing transition. A node's `remaining`
/// never grows, and every item it loses lands in this unit's inventory.
pub fn gather_step(unit: &mut Unit, nodes: &mut Vec<ResourceNode>, dt_ms: u32) -> (r: GatherOutcome)
    requires
        old(unit).wf(),
        nodes_wf(old(nodes)@),
        dt_ms <= 10_000,
    ensures
        final(unit).wf(),
        nodes_wf(final(nodes)@),
        gather_step_rel(*old(unit), old(nodes)@, *final(unit), final(nodes)@, r, dt_ms),
{
    let t = match unit.task {
        Option::Some(t) => t,
        Option::None => {
            return GatherOutcome::NoTask;
        },
    };
    if t.target >= nodes.len() {
        unit.task = Option::None;
        return GatherOutcome::TaskDropped;
    }
    let nd = nodes[t.target];
    let dsq = dist_sq_3d(unit.pos, nd.pos);
    proof {
        assert(nd.gather_radius * nd.gather_radius <= 1_000_000i64 * 1_000_000i64)
            by (nonlinear_arith)
            requires 0 <= nd.gather_radius <= 1_000_000;
    }
    let in_reach = dsq <= nd.gather_radius * nd.gather_radius;
    match t.state {
        GatherState::Walking => {
            if in_reach {
                unit.task = Option::Some(
                    GatherTask { state: GatherState::Harvesting, ..t },
                );
                unit.moving = false;
                GatherOutcome::StartedHarvest
            } else {
                GatherOutcome::KeptWalking
            }
        },
        GatherState::Full => GatherOutcome::Idle,
        GatherState::Harvesting => {
            if !in_reach {
                unit.task = Option::Some(GatherTask { state: GatherState::Walking, ..t });
                unit.dest = Option::Some(snap_to_grid(nd.pos));
                unit.moving = true;
                return GatherOutcome::ResumedWalk;
            }
            if unit.inventory.is_full() {
                unit.task = Option::Some(GatherTask { state: GatherState::Full, ..t });
                return GatherOutcome::BecameFull;
            }
            if nd.remaining == 0 {
                unit.task = Option::None;
                return GatherOutcome::TaskDropped;
            }
            let ticked = t.elapsed_ms + dt_ms;
            if ticked < t.period_ms {
                unit.task = Option::Some(GatherTask { elapsed_ms: ticked, ..t });
                return GatherOutcome::Waited;
            }
            // Timer completed: gather exactly one item, stores allowing.
            unit.task = Option::Some(GatherTask { elapsed_ms: ticked % t.period_ms, ..t });
            let item = ItemId::from_kind(nd.kind);
            proof {
                lemma_slot_accounting(unit.inventory.slots@, item_of_kind(nd.kind), 1);
            }
            let ghost inv0 = unit.inventory.slots@;
            let added = unit.inventory.add_items(item, 1, 1);
            proof {
                // A not-full inventory always has room for one item when
                // slots hold at most one: the harvest never fails.
                lemma_no_top_room_for_unit_stacks(inv0, item_of_kind(nd.kind));
                lemma_slot_accounting(inv0, item_of_kind(nd.kind), 1);
                lemma_slot_accounting(unit.inventory.slots@, item_of_kind(nd.kind), 1);
                assert(added == 1);
                lemma_total_split(old(unit).inventory.slots@);
                lemma_total_split(unit.inventory.slots@);
            }
            let node_ref = &mut nodes[t.target];
            *node_ref = ResourceNode { remaining: nd.remaining - 1, ..nd };
            GatherOutcome::Harvested
        },
    }
}


/// Total items held across all units' inventories.
pub open spec fn units_items(us: Seq<Unit>) -> int
    decreases us.len(),
{
    if us.len() == 0 {
        0
    } else {
        units_items(us.drop_last()) + cnt_total(us.last().inventory.slots@)
    }
}

/// Total items remaining across all nodes.
pub open spec fn nodes_items(ns: Seq<ResourceNode>) -> int
    decreases ns.len(),
{
    if ns.len() == 0 {
        0
    } else {
        nodes_items(ns.drop_last()) + ns.last().remaining
    }
}

proof fn lemma_units_items_update(us: Seq<Unit>, i: int, v: Unit)
    requires
        0 <= i < us.len(),
    ensures
        units_items(us.update(i, v)) == units_items(us) - cnt_total(us[i].inventory.slots@)
            + cnt_total(v.inventory.slots@),
    decreases us.len(),
{
    if i == us.len() - 1 {
        assert(us.update(i, v).drop_last() =~= us.drop_last());
        assert(us.update(i, v).last() == v);
    } else {
        assert(us.update(i, v).drop_last() =~= us.drop_last().update(i, v));
        assert(us.update(i, v).last() == us.last());
        lemma_units_items_update(us.drop_last(), i, v);
    }
}

proof fn lemma_nodes_items_update(ns: Seq<ResourceNode>, i: int, v: ResourceNode)
    requires
        0 <= i < ns.len(),
    ensures
        nodes_items(ns.update(i, v)) == nodes_items(ns) - ns[i].remaining + v.remaining,
    decreases ns.len(),
{
    if i == ns.len() - 1 {
        assert(ns.update(i, v).drop_last() =~= ns.drop_last());
        assert(ns.update(i, v).last() == v);
    } else {
        assert(ns.update(i, v).drop_last() =~= ns.drop_last().update(i, v));
        assert(ns.update(i, v).last() == ns.last());
        lemma_nodes_items_update(ns.drop_last(), i, v);
    }
}

/// A run of the gathering pass, witnessed step by step: `mids` is the
/// chain of node-arena states, one per unit processed in unit order, and
/// `rs` the per-unit outcomes; every unit stepped by the gathering
/// transition relation against the arena as the units before it left it,
/// and the changed flags mark exactly the harvesting steps.
pub open spec fn gather_trace(
    u0: Seq<Unit>,
    n0: Seq<ResourceNode>,
    u1: Seq<Unit>,
    n1: Seq<ResourceNode>,
    mids: Seq<Seq<ResourceNode>>,
    rs: Seq<GatherOutcome>,
    changed: Seq<bool>,
    dt_ms: u32,
) -> bool {
    &&& u1.len() == u0.len()
    &&& mids.len() == u0.len() + 1
    &&& rs.len() == u0.len()
    &&& changed.len() == u0.len()
    &&& mids[0] == n0
    &&& mids[u0.len() as int] == n1
    &&& forall|j: int|
        0 <= j < u0.len() ==> gather_step_rel(u0[j], #[trigger] mids[j], u1[j], mids[j + 1], rs[j], dt_ms)
    &&& forall|j: int|
        0 <= j < u0.len() ==> ((#[trigger] changed[j]) <==> rs[j] == GatherOutcome::Harvested)
}

/// Everything one gathering pass guarantees, over plain before/after
/// values: the aggregate clauses, and a step-by-step trace tying every
/// unit to the gathering transition relation.
pub open spec fn gather_pass_ok(
    u0: Seq<Unit>,
    n0: Seq<ResourceNode>,
    u1: Seq<Unit>,
    n1: Seq<ResourceNode>,
    changed: Seq<bool>,
    dt_ms: u32,
) -> bool {
    &&& u1.len() == u0.len()
    &&& n1.len() == n0.len()
    &&& (forall|j: int| 0 <= j < u1.len() ==> (#[trigger] u1[j]).wf())
    &&& nodes_wf(n1)
    &&& (forall|k: int| 0 <= k < n0.len() ==> {
        &&& (#[trigger] n1[k]).kind == n0[k].kind
        &&& n1[k].gather_rate_milli == n0[k].gather_rate_milli
        &&& n1[k].gather_radius == n0[k].gather_radius
        &&& n1[k].pos == n0[k].pos
        &&& n1[k].remaining <= n0[k].remaining
    })
    &&& units_items(u1) + nodes_items(n1) == units_items(u0) + nodes_items(n0)
    &&& (forall|j: int| 0 <= j < u0.len() ==> {
        &&& (#[trigger] u1[j]).pos == u0[j].pos
        &&& u1[j].radius == u0[j].radius
        &&& u1[j].primary == u0[j].primary
        &&& u1[j].allow_overlap == u0[j].allow_overlap
        &&& cnt_total(u1[j].inventory.slots@) >= cnt_total(u0[j].inventory.slots@)
    })
    &&& changed.len() == u0.len()
    &&& (forall|j: int|
        0 <= j < u0.len() ==> ((#[trigger] changed[j]) <==> cnt_total(u1[j].inventory.slots@)
            > cnt_total(u0[j].inventory.slots@)))
    &&& (exists|mids: Seq<Seq<ResourceNode>>, rs: Seq<GatherOutcome>| gather_trace(
        u0,
        n0,
        u1,
        n1,
        mids,
        rs,
        changed,
        dt_ms,
    ))
}

/// Runs the gathering state machine for every unit, in unit order, against
/// the shared node arena; each unit reads the `remaining` counter as left
/// by the units before it. Returns one flag per unit, set exactly when
/// that unit's inventory changed this tick.
///
/// Depletion is monotone: no node's `remaining` ever grows, and every item
/// a node loses lands in some unit's inventory, so the total over all
/// inventories and node pools is conserved.
pub fn process_gathering_state_machine(
    units: &mut Vec<Unit>,
    nodes: &mut Vec<ResourceNode>,
    dt_ms: u32,
) -> (changed: Vec<bool>)
    requires
        forall|j: int| 0 <= j < old(units)@.len() ==> (#[trigger] old(units)@[j]).wf(),
        nodes_wf(old(nodes)@),
        dt_ms <= 10_000,
    ensures
        gather_pass_ok(
            old(units)@,
            old(nodes)@,
            final(units)@,
            final(nodes)@,
            changed@,
            dt_ms,
        ),
{
    let ghost u0 = units@;
    let ghost n0 = nodes@;
    let ghost mut mids: Seq<Seq<ResourceNode>> = seq![n0];
    let ghost mut rs: Seq<GatherOutcome> = Seq::empty();
    let mut changed: Vec<bool> = Vec::new();
    let n = units.len();
    let mut i: usize = 0;
    while i < n
        invariant
            i <= n,
            n == units@.len(),
            u0.len() == n,
            nodes@.len() == n0.len(),
            dt_ms <= 10_000,
            changed@.len() == i,
            mids.len() == i + 1,
            rs.len() == i,
            mids[0] == n0,
            mids[i as int] == nodes@,
            forall|j: int|
                0 <= j < i ==> gather_step_rel(u0[j], #[trigger] mids[j], units@[j], mids[j + 1], rs[j], dt_ms),
            forall|j: int|
                0 <= j < i ==> ((#[trigger] rs[j]) == GatherOutcome::Harvested <==> changed@[j]),
            forall|j: int| 0 <= j < n ==> (#[trigger] units@[j]).wf(),
            nodes_wf(nodes@),
            forall|j: int| i <= j < n ==> units@[j] == u0[j],
            forall|k: int| 0 <= k < n0.len() ==> {
                &&& (#[trigger] nodes@[k]).kind == n0[k].kind
                &&& nodes@[k].gather_rate_milli == n0[k].gather_rate_milli
                &&& nodes@[k].gather_radius == n0[k].gather_radius
                &&& nodes@[k].pos == n0[k].pos
                &&& nodes@[k].remaining <= n0[k].remaining
            },
            units_items(units@) + nodes_items(nodes@) == units_items(u0) + nodes_items(n0),
            forall|j: int| 0 <= j < i ==> {
                &&& (#[trigger] units@[j]).pos == u0[j].pos
                &&& units@[j].radius == u0[j].radius
                &&& units@[j].primary == u0[j].primary
                &&& units@[j].allow_overlap == u0[j].allow_overlap
                &&& cnt_total(units@[j].inventory.slots@) >= cnt_total(u0[j].inventory.slots@)
            },
            forall|j: int| 0 <= j < i ==> ((#[trigger] changed@[j]) <==> cnt_total(
                units@[j].inventory.slots@,
            ) > cnt_total(u0[j].inventory.slots@)),
        decreases n - i,
    {
        let ghost ub = units@;
        let ghost nb = nodes@;
        let r = gather_step(&mut units[i], nodes, dt_ms);
        proof {
            let ii = i as int;
            lemma_units_items_update(ub, ii, units@[ii]);
            assert(units@ =~= ub.update(ii, units@[ii]));
            if ub[ii].task is Some && ub[ii].task->0.target < nb.len() {
                let tgt = ub[ii].task->0.target as int;
                assert(nodes@ =~= nb.update(tgt, nodes@[tgt]));
                lemma_nodes_items_update(nb, tgt, nodes@[tgt]);
            } else {
                assert(nodes@ =~= nb);
            }
        }
        let ghost cb = changed@;
        let grew: bool = matches!(r, GatherOutcome::Harvested);
        proof {
            let ii = i as int;
            assert(ub[ii] == u0[ii]);
        }
        changed.push(grew);
        proof {
            assert(changed@.drop_last() =~= cb);
            mids = mids.push(nodes@);
            rs = rs.push(r);
            let ii = i as int;
            assert(mids[ii + 1] == nodes@ && rs[ii] == r);
            assert(gather_step_rel(u0[ii], mids[ii], units@[ii], mids[ii + 1], rs[ii], dt_ms));
            assert forall|j: int|
                0 <= j < ii && #[trigger] units@[j] == units@[j] implies units@[j] == ub[j] by {
            }
        }
        i = i + 1;
    }
    proof {
        assert(gather_trace(u0, n0, units@, nodes@, mids, rs, changed@, dt_ms));
    }
    changed
}

} // verus!
