//! The per-tick driver: destination arbitration, then the movement
//! integrator, then the gathering state machine, in that fixed order, all
//! inside one tick before the next tick's input is sampled.

use vstd::prelude::*;
use crate::grid::{Cell, cell_of, cell_spec};
use crate::unit::Unit;
use crate::gathering::{
    ResourceNode, nodes_wf, cnt_total, units_items, nodes_items, process_gathering_state_machine,
    gather_pass_ok,
};
use crate::arbitration::{
    MoveRequest, Assigned, arbitrate, arb_result_ok, req_wf, tcell, ccell, is_alt,
    lemma_cell_of_in_range, cell_in_range,
};
use crate::movement::{
    SimConfig, Obstacle, UnitBall, MoveOutcome, obstacles_wf, balls_wf, move_unit_step,
    move_step_rel,
};

verus! {

/// The arbitration request a moving unit stands for.
pub open spec fn req_of(u: Unit) -> MoveRequest {
    MoveRequest { pos: u.pos, target: u.dest->0, primary: u.primary }
}

/// Number of moving units.
pub open spec fn cnt_moving(s: Seq<Unit>) -> int
    decreases s.len(),
{
    if s.len() == 0 {
        0
    } else {
        cnt_moving(s.drop_last()) + if s.last().moving {
            1int
        } else {
            0int
        }
    }
}

proof fn lemma_cnt_moving_mono(s: Seq<Unit>, a: int, b: int)
    requires
        0 <= a <= b <= s.len(),
    ensures
        cnt_moving(s.take(a)) <= cnt_moving(s.take(b)),
        a < b && s[a].moving ==> cnt_moving(s.take(a)) < cnt_moving(s.take(b)),
    decreases b - a,
{
    if a < b {
        lemma_cnt_moving_mono(s, a + 1, b);
        assert(s.take(a + 1).drop_last() =~= s.take(a));
        assert(s.take(a + 1).last() == s[a]);
    }
}


/// The stationary units' grid cells, in unit order: the cells arbitration
/// must avoid.
pub open spec fn occupied_cells(s: Seq<Unit>) -> Seq<Cell>
    decreases s.len(),
{
    if s.len() == 0 {
        Seq::empty()
    } else {
        occupied_cells(s.drop_last()) + (if s.last().moving {
            Seq::<Cell>::empty()
        } else {
            seq![cell_spec(s.last().pos)]
        })
    }
}

/// The moving units' arbitration requests, in unit order.
pub open spec fn moving_requests(s: Seq<Unit>) -> Seq<MoveRequest>
    decreases s.len(),
{
    if s.len() == 0 {
        Seq::empty()
    } else {
        moving_requests(s.drop_last()) + (if s.last().moving {
            seq![req_of(s.last())]
        } else {
            Seq::<MoveRequest>::empty()
        })
    }
}

proof fn lemma_moving_requests_len(s: Seq<Unit>)
    ensures
        moving_requests(s).len() == cnt_moving(s),
    decreases s.len(),
{
    if s.len() > 0 {
        lemma_moving_requests_len(s.drop_last());
    }
}

/// Everything one movement pass guarantees: stationary units untouched,
/// and a conflict-free assignment — the arbitration result over the
/// moving units' requests and the stationary cells — such that every
/// moving unit stepped by the movement relation toward its assigned cell.
pub open spec fn move_pass_ok(
    u0: Seq<Unit>,
    u1: Seq<Unit>,
    outcomes: Seq<MoveOutcome>,
    obstacles: Seq<Obstacle>,
    dt_ms: u32,
    cfg: SimConfig,
) -> bool {
    &&& u1.len() == u0.len()
    &&& outcomes.len() == u0.len()
    &&& (forall|j: int| 0 <= j < u1.len() ==> (#[trigger] u1[j]).wf())
    &&& (forall|j: int|
        0 <= j < u1.len() && !u0[j].moving ==> (#[trigger] u1[j]) == u0[j] && outcomes[j]
            == MoveOutcome::Stationary)
    &&& (exists|asg: Seq<Assigned>| {
        &&& asg.len() == cnt_moving(u0)
        &&& arb_result_ok(moving_requests(u0), occupied_cells(u0), asg)
        &&& forall|j: int|
            0 <= j < u0.len() && (#[trigger] u0[j]).moving ==> move_step_rel(
                u0[j],
                u1[j],
                asg[cnt_moving(u0.take(j))].cell,
                outcomes[j],
                obstacles,
                u0.len() - 1,
                dt_ms,
                cfg,
            )
    })
}

/// The snapshot of every unit but the one at `skip`.
fn neighbours_excluding(balls: &Vec<UnitBall>, skip: usize) -> (r: Vec<UnitBall>)
    requires
        balls_wf(balls@),
    ensures
        balls_wf(r@),
        skip < balls@.len() ==> r@.len() == balls@.len() - 1,
        balls@.len() <= skip ==> r@.len() == balls@.len(),
{
    let mut others: Vec<UnitBall> = Vec::new();
    let mut m: usize = 0;
    while m < balls.len()
        invariant
            m <= balls@.len(),
            balls_wf(balls@),
            others@.len() == m - (if skip < m { 1int } else { 0int }),
            balls_wf(others@),
        decreases balls@.len() - m,
    {
        if m != skip {
            others.push(balls[m]);
        }
        m = m + 1;
    }
    others
}

/// Runs one movement tick for every unit: stationary units pin their
/// current cells, moving units receive conflict-free destination cells
/// from arbitration and are then integrated one step each, against the
/// static obstacles and a snapshot of all units' positions.
#[verifier::rlimit(100)]
pub fn move_units(
    units: &mut Vec<Unit>,
    obstacles: &Vec<Obstacle>,
    dt_ms: u32,
    cfg: &SimConfig,
) -> (outcomes: Vec<MoveOutcome>)
    requires
        forall|j: int| 0 <= j < old(units)@.len() ==> (#[trigger] old(units)@[j]).wf(),
        old(units)@.len() <= 10_000,
        obstacles_wf(obstacles@),
        cfg.wf(),
        1 <= dt_ms <= 10_000,
    ensures
        final(units)@.len() == old(units)@.len(),
        outcomes@.len() == old(units)@.len(),
        forall|j: int| 0 <= j < final(units)@.len() ==> (#[trigger] final(units)@[j]).wf(),
        forall|j: int| 0 <= j < final(units)@.len() ==> {
            &&& (#[trigger] final(units)@[j]).radius == old(units)@[j].radius
            &&& final(units)@[j].primary == old(units)@[j].primary
            &&& final(units)@[j].allow_overlap == old(units)@[j].allow_overlap
            &&& final(units)@[j].task == old(units)@[j].task
            &&& final(units)@[j].inventory.slots@ == old(units)@[j].inventory.slots@
            &&& final(units)@[j].pos.y == old(units)@[j].pos.y
        },
        forall|j: int| 0 <= j < final(units)@.len() && !old(units)@[j].moving ==> (
        #[trigger] final(units)@[j]) == old(units)@[j] && outcomes@[j]
            == MoveOutcome::Stationary,
        forall|j: int| 0 <= j < final(units)@.len() && old(units)@[j].moving ==> (
        #[trigger] outcomes@[j]) != MoveOutcome::Stationary && (final(units)@[j].moving
            ==> final(units)@[j].dest == old(units)@[j].dest) && (!final(units)@[j].moving
            ==> final(units)@[j].dest is None && final(units)@[j].stuck_ms == 0),
        move_pass_ok(old(units)@, final(units)@, outcomes@, obstacles@, dt_ms, *cfg),
{
    let ghost u0 = units@;
    let n = units.len();

    // Stationary units hold their current grid cells for this tick.
    let mut occupied: Vec<Cell> = Vec::new();
    let mut i: usize = 0;
    while i < n
        invariant
            i <= n,
            n == units@.len(),
            units@ == u0,
            forall|j: int| 0 <= j < n ==> (#[trigger] u0[j]).wf(),
            occupied@ == occupied_cells(u0.take(i as int)),
        decreases n - i,
    {
        proof {
            assert(u0.take(i + 1).drop_last() =~= u0.take(i as int));
            assert(u0.take(i + 1).last() == u0[i as int]);
        }
        if !units[i].moving {
            let c = cell_of(units[i].pos);
            let ghost ob = occupied@;
            occupied.push(c);
            proof {
                assert(occupied@ =~= occupied_cells(u0.take(i + 1)));
            }
        } else {
            proof {
                assert(occupied@ =~= occupied_cells(u0.take(i + 1)));
            }
        }
        i = i + 1;
    }
    proof {
        assert(u0.take(n as int) =~= u0);
        assert(occupied@ == occupied_cells(u0));
    }

    // Collect the moving units' requests, in unit order.
    let mut requests: Vec<MoveRequest> = Vec::new();
    let ghost mut midx: Seq<int> = Seq::empty();
    let mut i2: usize = 0;
    while i2 < n
        invariant
            i2 <= n,
            n == units@.len(),
            units@ == u0,
            forall|j: int| 0 <= j < n ==> (#[trigger] u0[j]).wf(),
            midx.len() == requests@.len(),
            requests@.len() == cnt_moving(u0.take(i2 as int)),
            forall|k: int| 0 <= k < midx.len() ==> 0 <= #[trigger] midx[k] < i2
                && u0[midx[k]].moving && requests@[k] == req_of(u0[midx[k]]) && cnt_moving(
                u0.take(midx[k]),
            ) == k,
            forall|k: int| 0 <= k < requests@.len() ==> req_wf(#[trigger] requests@[k]),
            requests@ == moving_requests(u0.take(i2 as int)),
        decreases n - i2,
    {
        proof {
            assert(u0.take(i2 + 1).drop_last() =~= u0.take(i2 as int));
            assert(u0.take(i2 + 1).last() == u0[i2 as int]);
        }
        if units[i2].moving {
            let u = &units[i2];
            let target = match u.dest {
                Option::Some(t) => t,
                Option::None => u.pos,
            };
            requests.push(MoveRequest { pos: u.pos, target, primary: u.primary });
            proof {
                midx = midx.push(i2 as int);
                assert(requests@ =~= moving_requests(u0.take(i2 + 1)));
            }
        } else {
            proof {
                assert(requests@ =~= moving_requests(u0.take(i2 + 1)));
            }
        }
        i2 = i2 + 1;
    }
    proof {
        assert(u0.take(n as int) =~= u0);
        assert(requests@ == moving_requests(u0));
    }

    let assigned = arbitrate(&requests, &occupied);
    proof {
        assert(arb_result_ok(moving_requests(u0), occupied_cells(u0), assigned@));
        lemma_moving_requests_len(u0);
    }

    // Snapshot of every unit's position and radius, for soft repulsion.
    let mut balls: Vec<UnitBall> = Vec::new();
    let mut i3: usize = 0;
    while i3 < n
        invariant
            i3 <= n,
            n == units@.len(),
            units@ == u0,
            forall|j: int| 0 <= j < n ==> (#[trigger] u0[j]).wf(),
            balls@.len() == i3,
            balls_wf(balls@),
        decreases n - i3,
    {
        balls.push(UnitBall { pos: units[i3].pos, radius: units[i3].radius });
        i3 = i3 + 1;
    }

    // Integrate each moving unit against its arbitrated cell.
    let mut outcomes: Vec<MoveOutcome> = Vec::new();
    let mut next_req: usize = 0;
    let mut i4: usize = 0;
    while i4 < n
        invariant
            i4 <= n,
            next_req as int == cnt_moving(u0.take(i4 as int)),
            n == units@.len(),
            outcomes@.len() == i4,
            balls@.len() == n,
            balls_wf(balls@),
            u0.len() == n,
            n <= 10_000,
            obstacles_wf(obstacles@),
            cfg.wf(),
            1 <= dt_ms <= 10_000,
            requests@.len() == cnt_moving(u0),
            assigned@.len() == requests@.len(),
            midx.len() == requests@.len(),
            forall|k: int| 0 <= k < midx.len() ==> 0 <= #[trigger] midx[k] < n
                && u0[midx[k]].moving && requests@[k] == req_of(u0[midx[k]]) && cnt_moving(
                u0.take(midx[k]),
            ) == k,
            forall|k: int| 0 <= k < requests@.len() ==> req_wf(#[trigger] requests@[k]),
            forall|k: int| 0 <= k < assigned@.len() ==> (!(#[trigger] assigned@[k]).claimed
                ==> assigned@[k].cell == ccell(requests@[k])) && (assigned@[k].claimed ==> (
            assigned@[k].cell == tcell(requests@[k]) || is_alt(
                tcell(requests@[k]),
                assigned@[k].cell,
            ))),
            forall|j: int| i4 <= j < n ==> units@[j] == u0[j],
            forall|j: int| 0 <= j < n ==> (#[trigger] units@[j]).wf(),
            forall|j: int| 0 <= j < i4 ==> {
                &&& (#[trigger] units@[j]).radius == u0[j].radius
                &&& units@[j].primary == u0[j].primary
                &&& units@[j].allow_overlap == u0[j].allow_overlap
                &&& units@[j].task == u0[j].task
                &&& units@[j].inventory.slots@ == u0[j].inventory.slots@
                &&& units@[j].pos.y == u0[j].pos.y
            },
            forall|j: int| 0 <= j < i4 && !u0[j].moving ==> (#[trigger] units@[j]) == u0[j],
            forall|j: int|
                0 <= j < i4 && u0[j].moving ==> move_step_rel(
                    u0[j],
                    #[trigger] units@[j],
                    assigned@[cnt_moving(u0.take(j))].cell,
                    outcomes@[j],
                    obstacles@,
                    n - 1,
                    dt_ms,
                    *cfg,
                ),
            forall|j: int| 0 <= j < i4 && !u0[j].moving ==> (#[trigger] outcomes@[j])
                == MoveOutcome::Stationary,
            forall|j: int| 0 <= j < i4 && u0[j].moving ==> (#[trigger] outcomes@[j])
                != MoveOutcome::Stationary && (units@[j].moving ==> units@[j].dest == u0[j].dest)
                && (!units@[j].moving ==> units@[j].dest is None && units@[j].stuck_ms == 0),
        decreases n - i4,
    {
        proof {
            assert(u0.take(i4 + 1).drop_last() =~= u0.take(i4 as int));
            assert(u0.take(i4 + 1).last() == u0[i4 as int]);
            assert(u0.take(n as int) =~= u0);
        }
        let ghost ob_out = outcomes@;
        if units[i4].moving {
            proof {
                assert(u0[i4 as int].moving);
            }
            // This unit's request is the next one in unit order.
            let kidx = next_req;
            let ghost kk = cnt_moving(u0.take(i4 as int));
            proof {
                lemma_cnt_moving_mono(u0, i4 as int, n as int);
                assert(kk < requests@.len());
                // The kk-th request was built from this unit.
                let m = midx[kk];
                if m < i4 as int {
                    lemma_cnt_moving_mono(u0, m, i4 as int);
                    assert(false);
                } else if m > i4 as int {
                    lemma_cnt_moving_mono(u0, i4 as int, m);
                    assert(false);
                }
                assert(requests@[kk] == req_of(u0[i4 as int]));
            }
            let req_count = requests.len();
            proof {
                assert(next_req < req_count);
            }
            let cell = assigned[kidx].cell;
            next_req = next_req + 1;
            proof {
                let rq = requests@[kk];
                lemma_cell_of_in_range(rq.pos);
                lemma_cell_of_in_range(rq.target);
                assert(-100_002 <= cell.cx <= 100_002 && -100_002 <= cell.cz <= 100_002);
            }
            // Everyone else's snapshot position, for repulsion.
            let others = neighbours_excluding(&balls, i4);
            let ghost ub = units@;
            let u_ref = &mut units[i4];
            let oc = move_unit_step(u_ref, cell, obstacles, &others, dt_ms, cfg);
            outcomes.push(oc);
            proof {
                assert(outcomes@.drop_last() =~= ob_out);
                assert(units@ =~= ub.update(i4 as int, units@[i4 as int]));
                assert forall|j: int| 0 <= j <= i4 as int && !u0[j].moving implies (
                #[trigger] units@[j]) == u0[j] by {
                    assert(j != i4 as int);
                    assert(units@[j] == ub[j]);
                    assert(ub[j] == u0[j]);
                }
                assert forall|j: int| 0 <= j <= i4 as int && !u0[j].moving implies (
                #[trigger] outcomes@[j]) == MoveOutcome::Stationary by {
                    assert(j != i4 as int);
                    assert(outcomes@[j] == ob_out[j]);
                    assert(ob_out[j] == MoveOutcome::Stationary);
                }
                assert(others@.len() == n - 1);
                assert(move_step_rel(
                    u0[i4 as int],
                    units@[i4 as int],
                    assigned@[kk].cell,
                    outcomes@[i4 as int],
                    obstacles@,
                    n - 1,
                    dt_ms,
                    *cfg,
                ));
                assert forall|j: int|
                    0 <= j <= i4 as int && u0[j].moving implies move_step_rel(
                    u0[j],
                    #[trigger] units@[j],
                    assigned@[cnt_moving(u0.take(j))].cell,
                    outcomes@[j],
                    obstacles@,
                    n - 1,
                    dt_ms,
                    *cfg,
                ) by {
                    if j < i4 as int {
                        assert(units@[j] == ub[j]);
                        assert(outcomes@[j] == ob_out[j]);
                    }
                }
            }
        } else {
            proof {
                assert(!u0[i4 as int].moving);
            }
            outcomes.push(MoveOutcome::Stationary);
            proof {
                assert(outcomes@.drop_last() =~= ob_out);
                assert forall|j: int| 0 <= j <= i4 as int && !u0[j].moving implies (
                #[trigger] units@[j]) == u0[j] by {
                }
                assert forall|j: int| 0 <= j <= i4 as int && !u0[j].moving implies (
                #[trigger] outcomes@[j]) == MoveOutcome::Stationary by {
                    if j < i4 as int {
                        assert(outcomes@[j] == ob_out[j]);
                    } else {
                        assert(outcomes@[j] == MoveOutcome::Stationary);
                    }
                }
                assert forall|j: int|
                    0 <= j <= i4 as int && u0[j].moving implies move_step_rel(
                    u0[j],
                    #[trigger] units@[j],
                    assigned@[cnt_moving(u0.take(j))].cell,
                    outcomes@[j],
                    obstacles@,
                    n - 1,
                    dt_ms,
                    *cfg,
                ) by {
                    assert(j != i4 as int);
                    assert(outcomes@[j] == ob_out[j]);
                }
            }
        }
        i4 = i4 + 1;
    }
    proof {
        assert(u0.take(n as int) =~= u0);
        assert({
            &&& assigned@.len() == cnt_moving(u0)
            &&& arb_result_ok(moving_requests(u0), occupied_cells(u0), assigned@)
            &&& forall|j: int|
                0 <= j < u0.len() && (#[trigger] u0[j]).moving ==> move_step_rel(
                    u0[j],
                    units@[j],
                    assigned@[cnt_moving(u0.take(j))].cell,
                    outcomes@[j],
                    obstacles@,
                    u0.len() - 1,
                    dt_ms,
                    *cfg,
                )
        });
    }
    outcomes
}


proof fn lemma_units_items_congruent(a: Seq<Unit>, b: Seq<Unit>)
    requires
        a.len() == b.len(),
        forall|j: int| 0 <= j < a.len() ==> (#[trigger] a[j]).inventory.slots@
            == b[j].inventory.slots@,
    ensures
        units_items(a) == units_items(b),
    decreases a.len(),
{
    if a.len() > 0 {
        assert(forall|j: int| 0 <= j < a.len() - 1 ==> (#[trigger] a.drop_last()[j])
            == a[j] && b.drop_last()[j] == b[j]);
        lemma_units_items_congruent(a.drop_last(), b.drop_last());
    }
}

/// The whole simulation: units, resource nodes, static obstacles and the
/// configuration, advanced one tick at a time.
pub struct World {
    pub units: Vec<Unit>,
    pub nodes: Vec<ResourceNode>,
    pub obstacles: Vec<Obstacle>,
    pub config: SimConfig,
}

impl World {
    /// Shape the world keeps across ticks.
    pub open spec fn wf(self) -> bool {
        &&& forall|j: int| 0 <= j < self.units@.len() ==> (#[trigger] self.units@[j]).wf()
        &&& self.units@.len() <= 10_000
        &&& nodes_wf(self.nodes@)
        &&& obstacles_wf(self.obstacles@)
        &&& self.config.wf()
    }

    /// Builds an empty world under the given configuration.
    pub fn new(config: SimConfig) -> (r: World)
        requires
            config.wf(),
        ensures
            r.wf(),
            r.units@.len() == 0,
            r.nodes@.len() == 0,
            r.obstacles@.len() == 0,
            r.config == config,
    {
        World { units: Vec::new(), nodes: Vec::new(), obstacles: Vec::new(), config }
    }

    /// Advances the simulation one tick: destination arbitration and the
    /// movement integrator first, then the gathering state machine over
    /// the updated positions. Returns one flag per unit, set exactly when
    /// that unit's inventory changed this tick.
    ///
    /// Across the tick no node's `remaining` grows, and the total of all
    /// items held in inventories and remaining in nodes is conserved.
    pub fn tick(&mut self, dt_ms: u32) -> (changed: Vec<bool>)
        requires
            old(self).wf(),
            1 <= dt_ms <= 10_000,
        ensures
            final(self).wf(),
            final(self).units@.len() == old(self).units@.len(),
            final(self).nodes@.len() == old(self).nodes@.len(),
            final(self).obstacles@ == old(self).obstacles@,
            final(self).config == old(self).config,
            forall|k: int| 0 <= k < old(self).nodes@.len() ==> {
                &&& (#[trigger] final(self).nodes@[k]).kind == old(self).nodes@[k].kind
                &&& final(self).nodes@[k].gather_rate_milli == old(
                    self,
                ).nodes@[k].gather_rate_milli
                &&& final(self).nodes@[k].gather_radius == old(self).nodes@[k].gather_radius
                &&& final(self).nodes@[k].pos == old(self).nodes@[k].pos
                &&& final(self).nodes@[k].remaining <= old(self).nodes@[k].remaining
            },
            units_items(final(self).units@) + nodes_items(final(self).nodes@) == units_items(
                old(self).units@,
            ) + nodes_items(old(self).nodes@),
            changed@.len() == old(self).units@.len(),
            forall|j: int| 0 <= j < old(self).units@.len() ==> ((#[trigger] changed@[j]) <==> cnt_total(
                final(self).units@[j].inventory.slots@,
            ) > cnt_total(old(self).units@[j].inventory.slots@)),
            // The tick is its two phases: an intermediate unit state is
            // reached from the old one by the movement pass, and the final
            // state from it by the gathering pass.
            exists|mid: Seq<Unit>, outs: Seq<MoveOutcome>| {
                &&& #[trigger] move_pass_ok(
                    old(self).units@,
                    mid,
                    outs,
                    old(self).obstacles@,
                    dt_ms,
                    old(self).config,
                )
                &&& gather_pass_ok(
                    mid,
                    old(self).nodes@,
                    final(self).units@,
                    final(self).nodes@,
                    changed@,
                    dt_ms,
                )
            },
    {
        let ghost u0 = self.units@;
        let cfg = self.config;
        let outcomes = move_units(&mut self.units, &self.obstacles, dt_ms, &cfg);
        let ghost outs_g = outcomes@;
        proof {
            lemma_units_items_congruent(u0, self.units@);
        }
        let ghost u1 = self.units@;
        let changed = process_gathering_state_machine(&mut self.units, &mut self.nodes, dt_ms);
        proof {
            assert forall|j: int| 0 <= j < u0.len() implies ((#[trigger] changed@[j])
                <==> cnt_total(self.units@[j].inventory.slots@) > cnt_total(
                u0[j].inventory.slots@,
            )) by {
                assert(u1[j].inventory.slots@ == u0[j].inventory.slots@);
            }
            assert(move_pass_ok(u0, u1, outs_g, old(self).obstacles@, dt_ms, old(self).config));
            assert(gather_pass_ok(u1, old(self).nodes@, self.units@, self.nodes@, changed@, dt_ms));
        }
        changed
    }
}

} // verus!
