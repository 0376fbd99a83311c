//! Order issuing: movement commands for a selected group, with formation
//! spread, and the choice of an adjacent tile when an obstacle is the
//! click target.

use vstd::prelude::*;
use crate::grid::{Pos3, in_field, snap_spec, snap_to_grid, snap1, dist_sq_3d, dist_sq_3d_spec};
use crate::gathering::{ResourceNode, nodes_wf, GatherTask, GatherState, issue_gather_task};
use crate::inventory::{INV_SLOTS, cnt_used};
use crate::movement::{Obstacle, obstacles_wf};
use crate::rays::{Ray, box_hit_spec, ground_hit_spec, ray_box_intersection, ray_ground_intersection};
use crate::unit::Unit;

verus! {

/// The fixed formation offset for the k-th follower, in milli-units:
/// the ring of eight adjacent cells, then eight cells of the second ring.
pub open spec fn formation_offset(k: int) -> (int, int) {
    if k == 0 {
        (1000, 0)
    } else if k == 1 {
        (-1000, 0)
    } else if k == 2 {
        (0, 1000)
    } else if k == 3 {
        (0, -1000)
    } else if k == 4 {
        (1000, 1000)
    } else if k == 5 {
        (-1000, 1000)
    } else if k == 6 {
        (1000, -1000)
    } else if k == 7 {
        (-1000, -1000)
    } else if k == 8 {
        (2000, 0)
    } else if k == 9 {
        (-2000, 0)
    } else if k == 10 {
        (0, 2000)
    } else if k == 11 {
        (0, -2000)
    } else if k == 12 {
        (2000, 1000)
    } else if k == 13 {
        (-2000, 1000)
    } else if k == 14 {
        (1000, 2000)
    } else {
        (-1000, 2000)
    }
}

/// Where the unit at `unit_index` of a group of `total_units` is sent when
/// the group is ordered to `base`: the first unit takes the exact target,
/// every other unit an adjacent cell in a fixed pattern.
pub open spec fn formation_spec(base: Pos3, unit_index: int, total_units: int) -> Pos3 {
    if total_units <= 1 || unit_index == 0 {
        base
    } else {
        let off = formation_offset((unit_index - 1) % 16);
        Pos3 { x: (base.x + off.0) as i64, y: base.y, z: (base.z + off.1) as i64 }
    }
}

/// Computes the formation position for one unit of an ordered group.
pub fn calculate_formation_position(
    base: Pos3,
    unit_index: usize,
    total_units: usize,
) -> (r: Pos3)
    requires
        in_field(base),
        -99_000_000 <= base.x <= 99_000_000,
        -99_000_000 <= base.z <= 99_000_000,
    ensures
        r == formation_spec(base, unit_index as int, total_units as int),
        in_field(r),
{
    if total_units <= 1 || unit_index == 0 {
        return base;
    }
    let k = (unit_index - 1) % 16;
    let (ox, oz): (i64, i64) = if k == 0 {
        (1000, 0)
    } else if k == 1 {
        (-1000, 0)
    } else if k == 2 {
        (0, 1000)
    } else if k == 3 {
        (0, -1000)
    } else if k == 4 {
        (1000, 1000)
    } else if k == 5 {
        (-1000, 1000)
    } else if k == 6 {
        (1000, -1000)
    } else if k == 7 {
        (-1000, -1000)
    } else if k == 8 {
        (2000, 0)
    } else if k == 9 {
        (-2000, 0)
    } else if k == 10 {
        (0, 2000)
    } else if k == 11 {
        (0, -2000)
    } else if k == 12 {
        (2000, 1000)
    } else if k == 13 {
        (-2000, 1000)
    } else if k == 14 {
        (1000, 2000)
    } else {
        (-1000, 2000)
    };
    Pos3 { x: base.x + ox, y: base.y, z: base.z + oz }
}

/// The four tiles adjacent to an obstacle's cell, at the obstacle's height.
pub open spec fn adjacent_tile(box_center: Pos3, k: int) -> Pos3 {
    let bx = snap1(box_center.x as int);
    let bz = snap1(box_center.z as int);
    if k == 0 {
        Pos3 { x: (bx + 1000) as i64, y: box_center.y, z: bz as i64 }
    } else if k == 1 {
        Pos3 { x: (bx - 1000) as i64, y: box_center.y, z: bz as i64 }
    } else if k == 2 {
        Pos3 { x: bx as i64, y: box_center.y, z: (bz + 1000) as i64 }
    } else {
        Pos3 { x: bx as i64, y: box_center.y, z: (bz - 1000) as i64 }
    }
}

/// Finds the tile adjacent to a clicked obstacle that lies closest to
/// `from`: the walk-up point for interacting with the obstacle.
pub fn find_closest_adjacent_tile(box_center: Pos3, from: Pos3) -> (r: Pos3)
    requires
        in_field(box_center),
        in_field(from),
        -99_000_000 <= box_center.x <= 99_000_000,
        -99_000_000 <= box_center.z <= 99_000_000,
    ensures
        exists|k: int| 0 <= k < 4 && r == adjacent_tile(box_center, k),
        forall|k: int| 0 <= k < 4 ==> dist_sq_3d_spec(from, r) <= dist_sq_3d_spec(
            from,
            #[trigger] adjacent_tile(box_center, k),
        ),
{
    let snapped = crate::grid::snap_to_grid_keep_height(box_center);
    let t0 = Pos3 { x: snapped.x + 1000, y: box_center.y, z: snapped.z };
    let t1 = Pos3 { x: snapped.x - 1000, y: box_center.y, z: snapped.z };
    let t2 = Pos3 { x: snapped.x, y: box_center.y, z: snapped.z + 1000 };
    let t3 = Pos3 { x: snapped.x, y: box_center.y, z: snapped.z - 1000 };
    proof {
        crate::grid::lemma_snap1_range(box_center.x as int);
        crate::grid::lemma_snap1_range(box_center.z as int);
        assert(t0 == adjacent_tile(box_center, 0));
        assert(t1 == adjacent_tile(box_center, 1));
        assert(t2 == adjacent_tile(box_center, 2));
        assert(t3 == adjacent_tile(box_center, 3));
    }
    let d0 = dist_sq_3d(from, t0);
    let d1 = dist_sq_3d(from, t1);
    let d2 = dist_sq_3d(from, t2);
    let d3 = dist_sq_3d(from, t3);
    let mut best = t0;
    let mut bd = d0;
    if d1 < bd {
        best = t1;
        bd = d1;
    }
    if d2 < bd {
        best = t2;
        bd = d2;
    }
    if d3 < bd {
        best = t3;
        bd = d3;
    }
    best
}

/// The unit after a group movement order lands on it.
pub open spec fn ordered_unit(u: Unit, dest: Pos3, primary: bool) -> Unit {
    Unit {
        dest: Option::Some(dest),
        moving: true,
        stuck_ms: 0,
        primary: primary,
        task: Option::None,
        ..u
    }
}

/// The destination the k-th unit of the ordered group receives: the base
/// itself for a single unit, otherwise the snapped formation position.
pub open spec fn group_dest(base: Pos3, k: int, total: int) -> Pos3 {
    if total == 1 {
        base
    } else {
        snap_spec(formation_spec(base, k, total))
    }
}

/// Issues a movement order to every selected unit: one unit goes exactly
/// to the clicked point, a group spreads over adjacent cells, and the
/// first unit of a group is tagged primary so that arbitration lets it
/// win the exact target. Each order wholly replaces the unit's previous
/// destination and gather task.
pub fn handle_movement_command(units: &mut Vec<Unit>, selected: &Vec<usize>, base: Pos3)
    requires
        forall|j: int| 0 <= j < old(units)@.len() ==> (#[trigger] old(units)@[j]).wf(),
        forall|k: int| 0 <= k < selected@.len() ==> #[trigger] selected@[k] < old(units)@.len(),
        forall|a: int, b: int|
            0 <= a < selected@.len() && 0 <= b < selected@.len() && a != b ==> selected@[a]
                != selected@[b],
        in_field(base),
        -99_000_000 <= base.x <= 99_000_000,
        -99_000_000 <= base.z <= 99_000_000,
    ensures
        final(units)@.len() == old(units)@.len(),
        forall|j: int| 0 <= j < final(units)@.len() ==> (#[trigger] final(units)@[j]).wf(),
        forall|j: int|
            0 <= j < final(units)@.len() && (forall|k: int|
                0 <= k < selected@.len() ==> #[trigger] selected@[k] != j) ==> final(units)@[j] == old(units)@[j],
        forall|k: int| 0 <= k < selected@.len() ==> final(units)@[#[trigger] selected@[k] as int]
            == ordered_unit(
            old(units)@[selected@[k] as int],
            group_dest(base, k, selected@.len() as int),
            selected@.len() > 1 && k == 0,
        ),
{
    let ghost u0 = units@;
    let total = selected.len();
    let mut i: usize = 0;
    while i < total
        invariant
            i <= total,
            total == selected@.len(),
            units@.len() == u0.len(),
            forall|j: int| 0 <= j < u0.len() ==> (#[trigger] u0[j]).wf(),
            forall|k: int| 0 <= k < total ==> #[trigger] selected@[k] < u0.len(),
            forall|a: int, b: int|
                0 <= a < total && 0 <= b < total && a != b ==> selected@[a] != selected@[b],
            in_field(base),
            -99_000_000 <= base.x <= 99_000_000,
            -99_000_000 <= base.z <= 99_000_000,
            forall|j: int| 0 <= j < units@.len() ==> (#[trigger] units@[j]).wf(),
            forall|j: int|
                0 <= j < units@.len() && (forall|k: int|
                    0 <= k < i ==> #[trigger] selected@[k] != j) ==> units@[j] == u0[j],
            forall|k: int| 0 <= k < i ==> units@[#[trigger] selected@[k] as int] == ordered_unit(
                u0[selected@[k] as int],
                group_dest(base, k, total as int),
                total > 1 && k == 0,
            ),
        decreases total - i,
    {
        let j = selected[i];
        let dest = if total == 1 {
            base
        } else {
            snap_to_grid(calculate_formation_position(base, i, total))
        };
        let primary = total > 1 && i == 0;
        let ghost ub = units@;
        proof {
            assert(units@[j as int] == u0[j as int]);
        }
        let u_ref = &mut units[j];
        u_ref.order_move(dest, primary);
        proof {
            assert(units@ =~= ub.update(j as int, units@[j as int]));
            assert forall|jj: int|
                0 <= jj < units@.len() && (forall|k: int|
                    0 <= k < i + 1 ==> #[trigger] selected@[k] != jj) implies units@[jj]
                == u0[jj] by {
                assert(selected@[i as int] != jj);
                assert(ub[jj] == u0[jj]);
            }
            assert forall|k: int| 0 <= k < i + 1 implies units@[#[trigger] selected@[k] as int]
                == ordered_unit(
                u0[selected@[k] as int],
                group_dest(base, k, total as int),
                total > 1 && k == 0,
            ) by {
                if k < i as int {
                    assert(selected@[k] != selected@[i as int]);
                    assert(units@[selected@[k] as int] == ub[selected@[k] as int]);
                }
            }
        }
        i = i + 1;
    }
}


/// What a right click resolves to: a gather order against a node, a
/// movement order to a point, or nothing.
#[derive(Clone, Copy, PartialEq, Eq, Structural, Debug)]
pub enum ClickTarget {
    /// Gather at the node with this index.
    Gather(usize),
    /// Move to this point.
    Move(Pos3),
    /// The click hit nothing walkable.
    Miss,
}

/// The picking footprint of a resource node: generous, so nodes are easy
/// to click.
pub open spec fn node_clicked(ray: Ray, nd: ResourceNode) -> bool {
    box_hit_spec(ray, nd.pos, 1200, 1800, 1200)
}

/// The picking footprint of a plain obstacle box.
pub open spec fn obstacle_clicked(ray: Ray, ob: Obstacle) -> bool {
    box_hit_spec(ray, ob.pos, 800, 500, 800)
}

/// Clamps a point into the clickable part of the field, so the walk
/// targets a click produces stay well inside the world.
pub open spec fn clamp_click_spec(p: Pos3) -> Pos3 {
    Pos3 {
        x: (if p.x < -98_000_000 {
            -98_000_000int
        } else if p.x > 98_000_000 {
            98_000_000int
        } else {
            p.x as int
        }) as i64,
        y: (if p.y < -98_000_000 {
            -98_000_000int
        } else if p.y > 98_000_000 {
            98_000_000int
        } else {
            p.y as int
        }) as i64,
        z: (if p.z < -98_000_000 {
            -98_000_000int
        } else if p.z > 98_000_000 {
            98_000_000int
        } else {
            p.z as int
        }) as i64,
    }
}

fn clamp_click(p: Pos3) -> (r: Pos3)
    requires
        -3_000_000_000_000 <= p.x <= 3_000_000_000_000,
        -3_000_000_000_000 <= p.y <= 3_000_000_000_000,
        -3_000_000_000_000 <= p.z <= 3_000_000_000_000,
    ensures
        r == clamp_click_spec(p),
        in_field(r),
        -98_000_000 <= r.x <= 98_000_000,
        -98_000_000 <= r.z <= 98_000_000,
{
    let x = if p.x < -98_000_000 {
        -98_000_000
    } else if p.x > 98_000_000 {
        98_000_000
    } else {
        p.x
    };
    let y = if p.y < -98_000_000 {
        -98_000_000
    } else if p.y > 98_000_000 {
        98_000_000
    } else {
        p.y
    };
    let z = if p.z < -98_000_000 {
        -98_000_000
    } else if p.z > 98_000_000 {
        98_000_000
    } else {
        p.z
    };
    Pos3 { x, y, z }
}

/// The point a click walks from when an obstacle was hit: the ground
/// intersection when the ray points down, else the obstacle's own centre.
pub open spec fn click_from_spec(ray: Ray, center: Pos3) -> Pos3 {
    if ray.dir_y < 0 {
        clamp_click_spec(ground_hit_spec(ray, 0))
    } else {
        center
    }
}

/// The whole right-click dispatch, as a relation between the ray, the
/// world and the decision: the first resource node the ray hits wins and
/// becomes a gather order; otherwise the first obstacle hit diverts the
/// order to one of its closest adjacent tiles; otherwise a downward ray
/// orders a move to the snapped ground point, and anything else misses.
pub open spec fn click_dispatch_ok(
    ray: Ray,
    ns: Seq<ResourceNode>,
    obs: Seq<Obstacle>,
    r: ClickTarget,
) -> bool {
    &&& (r is Gather ==> {
        let k = r->Gather_0 as int;
        &&& 0 <= k < ns.len()
        &&& node_clicked(ray, ns[k])
        &&& forall|m: int| 0 <= m < k ==> !node_clicked(ray, #[trigger] ns[m])
    })
    &&& (!(r is Gather) ==> forall|m: int| 0 <= m < ns.len() ==> !node_clicked(
        ray,
        #[trigger] ns[m],
    ))
    &&& (forall|k0: int|
        0 <= k0 < obs.len() && !(r is Gather) && obstacle_clicked(ray, #[trigger] obs[k0]) && (
        forall|m: int| 0 <= m < k0 ==> !obstacle_clicked(ray, #[trigger] obs[m])) ==> r is Move
            && (exists|t: int| 0 <= t < 4 && r->Move_0 == adjacent_tile(obs[k0].pos, t)) && (
        forall|t: int|
            0 <= t < 4 ==> dist_sq_3d_spec(click_from_spec(ray, obs[k0].pos), r->Move_0)
                <= dist_sq_3d_spec(
                click_from_spec(ray, obs[k0].pos),
                #[trigger] adjacent_tile(obs[k0].pos, t),
            )))
    &&& (!(r is Gather) && (forall|m: int|
        0 <= m < obs.len() ==> !obstacle_clicked(ray, #[trigger] obs[m])) && ray.dir_y < 0 ==> r
        == ClickTarget::Move(snap_spec(clamp_click_spec(ground_hit_spec(ray, 0)))))
    &&& (!(r is Gather) && (forall|m: int|
        0 <= m < obs.len() ==> !obstacle_clicked(ray, #[trigger] obs[m])) && ray.dir_y >= 0 ==> r
        == ClickTarget::Miss)
    &&& (r is Move ==> in_field(r->Move_0) && -99_000_000 <= r->Move_0.x <= 99_000_000
        && -99_000_000 <= r->Move_0.z <= 99_000_000)
}

/// Resolves a right click: nodes are picked first, then obstacles, then
/// the ground.
pub fn resolve_click(ray: Ray, nodes: &Vec<ResourceNode>, obstacles: &Vec<Obstacle>) -> (r:
    ClickTarget)
    requires
        ray.wf(),
        nodes_wf(nodes@),
        obstacles_wf(obstacles@),
        forall|m: int|
            0 <= m < obstacles@.len() ==> -98_000_000 <= (#[trigger] obstacles@[m]).pos.x
                <= 98_000_000 && -98_000_000 <= obstacles@[m].pos.z <= 98_000_000,
    ensures
        click_dispatch_ok(ray, nodes@, obstacles@, r),
{
    let mut k: usize = 0;
    while k < nodes.len()
        invariant
            k <= nodes@.len(),
            ray.wf(),
            nodes_wf(nodes@),
            forall|m: int| 0 <= m < k ==> !node_clicked(ray, #[trigger] nodes@[m]),
        decreases nodes@.len() - k,
    {
        if ray_box_intersection(ray, nodes[k].pos, 1200, 1800, 1200) {
            return ClickTarget::Gather(k);
        }
        k = k + 1;
    }
    let mut j: usize = 0;
    while j < obstacles.len()
        invariant
            j <= obstacles@.len(),
            ray.wf(),
            obstacles_wf(obstacles@),
            forall|m: int|
                0 <= m < obstacles@.len() ==> -98_000_000 <= (#[trigger] obstacles@[m]).pos.x
                    <= 98_000_000 && -98_000_000 <= obstacles@[m].pos.z <= 98_000_000,
            forall|m: int| 0 <= m < nodes@.len() ==> !node_clicked(ray, #[trigger] nodes@[m]),
            forall|m: int| 0 <= m < j ==> !obstacle_clicked(ray, #[trigger] obstacles@[m]),
        decreases obstacles@.len() - j,
    {
        if ray_box_intersection(ray, obstacles[j].pos, 800, 500, 800) {
            let center = obstacles[j].pos;
            let from = match ray_ground_intersection(ray, 0) {
                Option::Some(g) => clamp_click(g),
                Option::None => center,
            };
            let tile = find_closest_adjacent_tile(center, from);
            return ClickTarget::Move(tile);
        }
        j = j + 1;
    }
    match ray_ground_intersection(ray, 0) {
        Option::Some(g) => ClickTarget::Move(snap_to_grid(clamp_click(g))),
        Option::None => ClickTarget::Miss,
    }
}


/// The unit a gather order leaves behind: the order attached when the
/// node resolves and the bag has room, otherwise the unit untouched.
pub open spec fn issue_result(u: Unit, target: int, ns: Seq<ResourceNode>) -> Unit {
    if 0 <= target < ns.len() && cnt_used(u.inventory.slots@) < INV_SLOTS {
        Unit {
            dest: Option::Some(snap_spec(ns[target].pos)),
            moving: true,
            stuck_ms: 0,
            task: Option::Some(
                GatherTask {
                    target: target as usize,
                    period_ms: 1_000_000u32 / ns[target].gather_rate_milli,
                    elapsed_ms: 0,
                    state: GatherState::Walking,
                },
            ),
            ..u
        }
    } else {
        u
    }
}

/// Carries out a right click for the selected units: the dispatch decides
/// — gather at the first node hit, walk up to the first obstacle hit, or
/// move to the snapped ground point — and the decision is applied to
/// every selected unit; a miss leaves everything untouched.
pub fn handle_click_command(
    units: &mut Vec<Unit>,
    selected: &Vec<usize>,
    nodes: &Vec<ResourceNode>,
    obstacles: &Vec<Obstacle>,
    ray: Ray,
) -> (r: ClickTarget)
    requires
        forall|j: int| 0 <= j < old(units)@.len() ==> (#[trigger] old(units)@[j]).wf(),
        forall|k: int| 0 <= k < selected@.len() ==> #[trigger] selected@[k] < old(units)@.len(),
        forall|a: int, b: int|
            0 <= a < selected@.len() && 0 <= b < selected@.len() && a != b ==> selected@[a]
                != selected@[b],
        ray.wf(),
        nodes_wf(nodes@),
        obstacles_wf(obstacles@),
        forall|m: int|
            0 <= m < obstacles@.len() ==> -98_000_000 <= (#[trigger] obstacles@[m]).pos.x
                <= 98_000_000 && -98_000_000 <= obstacles@[m].pos.z <= 98_000_000,
    ensures
        click_dispatch_ok(ray, nodes@, obstacles@, r),
        final(units)@.len() == old(units)@.len(),
        forall|j: int| 0 <= j < final(units)@.len() ==> (#[trigger] final(units)@[j]).wf(),
        forall|j: int|
            0 <= j < final(units)@.len() && (forall|k: int|
                0 <= k < selected@.len() ==> #[trigger] selected@[k] != j) ==> final(units)@[j]
                == old(units)@[j],
        r is Gather ==> forall|k: int|
            0 <= k < selected@.len() ==> final(units)@[#[trigger] selected@[k] as int]
                == issue_result(
                old(units)@[selected@[k] as int],
                r->Gather_0 as int,
                nodes@,
            ),
        r is Move ==> forall|k: int|
            0 <= k < selected@.len() ==> final(units)@[#[trigger] selected@[k] as int]
                == ordered_unit(
                old(units)@[selected@[k] as int],
                group_dest(r->Move_0, k, selected@.len() as int),
                selected@.len() > 1 && k == 0,
            ),
        r == ClickTarget::Miss ==> final(units)@ == old(units)@,
{
    let target = resolve_click(ray, nodes, obstacles);
    match target {
        ClickTarget::Gather(node_idx) => {
            let ghost u0 = units@;
            let total = selected.len();
            let mut i: usize = 0;
            while i < total
                invariant
                    i <= total,
                    total == selected@.len(),
                    units@.len() == u0.len(),
                    forall|j: int| 0 <= j < u0.len() ==> (#[trigger] u0[j]).wf(),
                    forall|k: int| 0 <= k < total ==> #[trigger] selected@[k] < u0.len(),
                    forall|a: int, b: int|
                        0 <= a < total && 0 <= b < total && a != b ==> selected@[a]
                            != selected@[b],
                    nodes_wf(nodes@),
                    forall|j: int| 0 <= j < units@.len() ==> (#[trigger] units@[j]).wf(),
                    forall|j: int|
                        0 <= j < units@.len() && (forall|k: int|
                            0 <= k < i ==> #[trigger] selected@[k] != j) ==> units@[j] == u0[j],
                    forall|k: int| 0 <= k < i ==> units@[#[trigger] selected@[k] as int]
                        == issue_result(u0[selected@[k] as int], node_idx as int, nodes@),
                decreases total - i,
            {
                let j = selected[i];
                let ghost ub = units@;
                proof {
                    assert(units@[j as int] == u0[j as int]);
                }
                let u_ref = &mut units[j];
                issue_gather_task(u_ref, node_idx, nodes);
                proof {
                    assert(units@ =~= ub.update(j as int, units@[j as int]));
                    assert forall|jj: int|
                        0 <= jj < units@.len() && (forall|k: int|
                            0 <= k < i + 1 ==> #[trigger] selected@[k] != jj) implies units@[jj]
                        == u0[jj] by {
                        assert(selected@[i as int] != jj);
                        assert(ub[jj] == u0[jj]);
                    }
                    assert forall|k: int| 0 <= k < i + 1 implies units@[#[trigger] selected@[k] as int]
                        == issue_result(u0[selected@[k] as int], node_idx as int, nodes@) by {
                        if k < i as int {
                            assert(selected@[k] != selected@[i as int]);
                            assert(units@[selected@[k] as int] == ub[selected@[k] as int]);
                        }
                    }
                }
                i = i + 1;
            }
        },
        ClickTarget::Move(point) => {
            handle_movement_command(units, selected, point);
        },
        ClickTarget::Miss => {},
    }
    target
}

} // verus!
