//! Spawn-time population of the resource node arena: grid-aligned random
//! positions with clearance from existing entities and from each other,
//! and per-kind yield, rate and footprint.

use vstd::prelude::*;
use crate::grid::{Pos3, in_field, dist_sq_xz_spec, dist_sq_xz, GROUND_Y_MU};
use crate::items::ResourceKind;
use crate::gathering::ResourceNode;
use crate::movement::Obstacle;
use crate::world::World;
use crate::rng::rng_range;

verus! {

/// Configuration of the resource spawner, in milli-units.
#[derive(Clone, Copy, PartialEq, Eq, Structural, Debug)]
pub struct ResourceSpawnConfig {
    /// Lowest spawn cell on each horizontal axis.
    pub world_min_cell: i64,
    /// Highest spawn cell on each horizontal axis.
    pub world_max_cell: i64,
    /// Nodes attempted per chunk.
    pub resources_per_chunk: usize,
    /// Minimum distance between two spawned nodes.
    pub min_resource_distance: i64,
    /// Minimum distance from existing obstacles and units.
    pub clearance_distance: i64,
}

impl ResourceSpawnConfig {
    /// Bounds every spawn configuration keeps.
    pub open spec fn wf(self) -> bool {
        &&& -90_000 <= self.world_min_cell <= self.world_max_cell <= 90_000
        &&& self.resources_per_chunk <= 1000
        &&& 0 <= self.min_resource_distance <= 1_000_000
        &&& 0 <= self.clearance_distance <= 1_000_000
    }

    /// The canonical layout: eight nodes over a sixteen-cell square, two
    /// cells between nodes and one and a half cells of clearance.
    pub fn standard() -> (r: ResourceSpawnConfig)
        ensures
            r.wf(),
            r == (ResourceSpawnConfig {
                world_min_cell: -8i64,
                world_max_cell: 8,
                resources_per_chunk: 8,
                min_resource_distance: 2000,
                clearance_distance: 1500,
            }),
    {
        ResourceSpawnConfig {
            world_min_cell: -8,
            world_max_cell: 8,
            resources_per_chunk: 8,
            min_resource_distance: 2000,
            clearance_distance: 1500,
        }
    }
}

/// The resource kind a weighted roll in `[0, 1000)` picks: trees on two
/// fifths of the rolls, copper and tin on three tenths each.
pub open spec fn kind_of_roll(roll: i64) -> ResourceKind {
    if roll < 400 {
        ResourceKind::Wood
    } else if roll < 700 {
        ResourceKind::Copper
    } else {
        ResourceKind::Tin
    }
}

/// Items a fresh node of the kind holds.
pub open spec fn initial_remaining(k: ResourceKind) -> u32 {
    match k {
        ResourceKind::Wood => 50,
        ResourceKind::Copper => 30,
        ResourceKind::Tin => 25,
    }
}

/// Collision footprint of a node of the kind, in milli-units.
pub open spec fn node_footprint(k: ResourceKind) -> (int, int, int) {
    match k {
        ResourceKind::Wood => (1200int, 1500int, 1200int),
        ResourceKind::Copper => (1100int, 700int, 1100int),
        ResourceKind::Tin => (1000int, 600int, 1000int),
    }
}

/// Picks the kind for one spawn roll.
pub fn choose_kind(roll: i64) -> (r: ResourceKind)
    requires
        0 <= roll < 1000,
    ensures
        r == kind_of_roll(roll),
{
    if roll < 400 {
        ResourceKind::Wood
    } else if roll < 700 {
        ResourceKind::Copper
    } else {
        ResourceKind::Tin
    }
}

/// Tries up to `max_attempts` random grid-aligned positions inside the
/// world bounds and returns the first that keeps `min_distance` from
/// every existing position; `None` when every attempt was too close.
pub fn find_safe_resource_position(
    rng: &mut rand::rngs::ThreadRng,
    world_min_cell: i64,
    world_max_cell: i64,
    existing: &Vec<Pos3>,
    min_distance: i64,
    max_attempts: usize,
) -> (r: Option<Pos3>)
    requires
        -90_000 <= world_min_cell <= world_max_cell <= 90_000,
        0 <= min_distance <= 1_000_000,
        forall|k: int| 0 <= k < existing@.len() ==> in_field(#[trigger] existing@[k]),
    ensures
        r is Some ==> {
            let p = r->0;
            &&& in_field(p)
            &&& p.x % 1000 == 0 && p.z % 1000 == 0
            &&& world_min_cell * 1000 <= p.x <= world_max_cell * 1000
            &&& world_min_cell * 1000 <= p.z <= world_max_cell * 1000
            &&& p.y == GROUND_Y_MU
            &&& forall|k: int| 0 <= k < existing@.len() ==> dist_sq_xz_spec(
                p,
                #[trigger] existing@[k],
            ) >= min_distance * min_distance
        },
        // With nothing to clash against, the very first attempt succeeds.
        (existing@.len() == 0 || min_distance == 0) && max_attempts >= 1 ==> r is Some,
{
    let mut attempt: usize = 0;
    proof {
        assert(0 <= min_distance * min_distance <= 1_000_000i64 * 1_000_000i64)
            by (nonlinear_arith)
            requires 0 <= min_distance <= 1_000_000;
    }
    while attempt < max_attempts
        invariant
            -90_000 <= world_min_cell <= world_max_cell <= 90_000,
            0 <= min_distance <= 1_000_000,
            0 <= min_distance * min_distance <= 1_000_000_000_000,
            forall|k: int| 0 <= k < existing@.len() ==> in_field(#[trigger] existing@[k]),
            (existing@.len() == 0 || min_distance == 0) ==> attempt == 0,
        decreases max_attempts - attempt,
    {
        let cx = rng_range(rng, world_min_cell, world_max_cell);
        let cz = rng_range(rng, world_min_cell, world_max_cell);
        let p = Pos3 { x: cx * 1000, y: GROUND_Y_MU, z: cz * 1000 };
        proof {
            assert((cx * 1000) % 1000 == 0 && (cz * 1000) % 1000 == 0) by (nonlinear_arith);
            assert(world_min_cell * 1000 <= cx * 1000 <= world_max_cell * 1000
                && world_min_cell * 1000 <= cz * 1000 <= world_max_cell * 1000)
                by (nonlinear_arith)
                requires world_min_cell <= cx <= world_max_cell && world_min_cell <= cz
                    <= world_max_cell;
            assert(-90_000_000 <= cx * 1000 <= 90_000_000 && -90_000_000 <= cz * 1000
                <= 90_000_000) by (nonlinear_arith)
                requires -90_000 <= cx <= 90_000 && -90_000 <= cz <= 90_000;
        }
        let mut ok = true;
        let mut k: usize = 0;
        while k < existing.len()
            invariant
                k <= existing@.len(),
                in_field(p),
                0 <= min_distance * min_distance <= 1_000_000_000_000,
                min_distance * min_distance == (min_distance as int) * (min_distance as int),
                forall|m: int| 0 <= m < existing@.len() ==> in_field(#[trigger] existing@[m]),
                ok ==> forall|m: int| 0 <= m < k ==> dist_sq_xz_spec(p, #[trigger] existing@[m])
                    >= min_distance * min_distance,
                (existing@.len() == 0 || min_distance == 0) ==> ok,
            decreases existing@.len() - k,
        {
            if dist_sq_xz(p, existing[k]) < min_distance * min_distance {
                ok = false;
            }
            k = k + 1;
        }
        if ok {
            return Option::Some(p);
        }
        attempt = attempt + 1;
    }
    Option::None
}

/// Populates the world with up to one chunk of resource nodes: each node
/// lands on a random free grid cell with clearance from every existing
/// obstacle and from every node spawned before it, carries its kind's
/// yield and rate, the world's default gather radius, and stands in the
/// obstacle list so that movement avoids it. Returns how many nodes were
/// placed; crowded ground can yield fewer than the chunk size.
pub fn spawn_resources(
    world: &mut World,
    rng: &mut rand::rngs::ThreadRng,
    spawn_cfg: &ResourceSpawnConfig,
) -> (spawned: usize)
    requires
        old(world).wf(),
        spawn_cfg.wf(),
        old(world).nodes@.len() + spawn_cfg.resources_per_chunk <= 100_000,
        old(world).obstacles@.len() + spawn_cfg.resources_per_chunk <= 100_000,
    ensures
        final(world).wf(),
        final(world).units@ == old(world).units@,
        final(world).config == old(world).config,
        final(world).nodes@.len() == old(world).nodes@.len() + spawned,
        final(world).obstacles@.len() == old(world).obstacles@.len() + spawned,
        spawned <= spawn_cfg.resources_per_chunk,
        forall|k: int| 0 <= k < old(world).nodes@.len() ==> final(world).nodes@[k] == old(
            world,
        ).nodes@[k],
        forall|k: int| 0 <= k < old(world).obstacles@.len() ==> final(world).obstacles@[k] == old(
            world,
        ).obstacles@[k],
        forall|k: int|
            old(world).nodes@.len() <= k < final(world).nodes@.len() ==> {
                let nd = #[trigger] final(world).nodes@[k];
                &&& nd.remaining == initial_remaining(nd.kind)
                &&& nd.gather_radius == old(world).config.default_gather_radius
                &&& nd.pos.x % 1000 == 0 && nd.pos.z % 1000 == 0
                &&& in_field(nd.pos)
            },
        // Spawned nodes keep their distance from one another.
        forall|a: int, b: int|
            old(world).nodes@.len() <= a < final(world).nodes@.len() && old(
                world,
            ).nodes@.len() <= b < final(world).nodes@.len() && a != b ==> dist_sq_xz_spec(
                final(world).nodes@[a].pos,
                final(world).nodes@[b].pos,
            ) >= spawn_cfg.min_resource_distance * spawn_cfg.min_resource_distance,
        // Spawned nodes keep clearance from every unit.
        forall|a: int, m: int|
            old(world).nodes@.len() <= a < final(world).nodes@.len() && 0 <= m < old(
                world,
            ).units@.len() ==> dist_sq_xz_spec(
                (#[trigger] final(world).nodes@[a]).pos,
                (#[trigger] old(world).units@[m]).pos,
            ) >= spawn_cfg.clearance_distance * spawn_cfg.clearance_distance,
        // On empty ground the first round always places a node.
        old(world).obstacles@.len() == 0 && old(world).nodes@.len() == 0 && old(
            world,
        ).units@.len() == 0 && spawn_cfg.resources_per_chunk >= 1 ==> spawned >= 1,
{
    let ghost n0 = world.nodes@;
    let ghost o0 = world.obstacles@;
    let cfg = world.config;
    proof {
        assert(0 <= spawn_cfg.min_resource_distance * spawn_cfg.min_resource_distance
            <= 1_000_000i64 * 1_000_000i64) by (nonlinear_arith)
            requires 0 <= spawn_cfg.min_resource_distance <= 1_000_000;
        assert(0 <= spawn_cfg.clearance_distance * spawn_cfg.clearance_distance
            <= 1_000_000i64 * 1_000_000i64) by (nonlinear_arith)
            requires 0 <= spawn_cfg.clearance_distance <= 1_000_000;
    }
    let mut spawned: usize = 0;
    let mut round: usize = 0;
    while round < spawn_cfg.resources_per_chunk
        invariant
            round <= spawn_cfg.resources_per_chunk,
            spawned <= round,
            spawn_cfg.wf(),
            cfg == old(world).config,
            world.config == cfg,
            world.units@ == old(world).units@,
            world.wf(),
            0 <= spawn_cfg.min_resource_distance * spawn_cfg.min_resource_distance
                <= 1_000_000_000_000,
            0 <= spawn_cfg.clearance_distance * spawn_cfg.clearance_distance
                <= 1_000_000_000_000,
            n0.len() + spawn_cfg.resources_per_chunk <= 100_000,
            o0.len() + spawn_cfg.resources_per_chunk <= 100_000,
            world.nodes@.len() == n0.len() + spawned,
            world.obstacles@.len() == o0.len() + spawned,
            forall|k: int| 0 <= k < n0.len() ==> world.nodes@[k] == n0[k],
            forall|k: int| 0 <= k < o0.len() ==> world.obstacles@[k] == o0[k],
            forall|k: int|
                n0.len() <= k < world.nodes@.len() ==> {
                    let nd = #[trigger] world.nodes@[k];
                    &&& nd.remaining == initial_remaining(nd.kind)
                    &&& nd.gather_radius == cfg.default_gather_radius
                    &&& nd.pos.x % 1000 == 0 && nd.pos.z % 1000 == 0
                    &&& in_field(nd.pos)
                },
            forall|a: int, b: int|
                n0.len() <= a < world.nodes@.len() && n0.len() <= b < world.nodes@.len() && a != b
                    ==> dist_sq_xz_spec(world.nodes@[a].pos, world.nodes@[b].pos)
                    >= spawn_cfg.min_resource_distance * spawn_cfg.min_resource_distance,
            forall|a: int, m: int|
                n0.len() <= a < world.nodes@.len() && 0 <= m < world.units@.len()
                    ==> dist_sq_xz_spec(
                    (#[trigger] world.nodes@[a]).pos,
                    (#[trigger] world.units@[m]).pos,
                ) >= spawn_cfg.clearance_distance * spawn_cfg.clearance_distance,
            o0.len() == 0 && n0.len() == 0 && world.units@.len() == 0 && round >= 1 ==> spawned
                >= 1,
        decreases spawn_cfg.resources_per_chunk - round,
    {
        // Look for a position with clearance from every obstacle and
        // distance from every node spawned so far.
        let mut found: bool = false;
        let mut pos = Pos3 { x: 0, y: GROUND_Y_MU, z: 0 };
        let mut attempt: usize = 0;
        while attempt < 100
            invariant_except_break
                found == false,
            invariant
                spawn_cfg.wf(),
                world.wf(),
                0 <= spawn_cfg.min_resource_distance * spawn_cfg.min_resource_distance
                    <= 1_000_000_000_000,
                0 <= spawn_cfg.clearance_distance * spawn_cfg.clearance_distance
                    <= 1_000_000_000_000,
                world.obstacles@.len() == 0 && world.nodes@.len() == 0 && world.units@.len() == 0
                    ==> attempt == 0,
            ensures
                found ==> {
                    &&& in_field(pos)
                    &&& pos.x % 1000 == 0 && pos.z % 1000 == 0
                    &&& pos.y == GROUND_Y_MU
                    &&& forall|m: int| 0 <= m < world.obstacles@.len() ==> dist_sq_xz_spec(
                        pos,
                        (#[trigger] world.obstacles@[m]).pos,
                    ) >= spawn_cfg.clearance_distance * spawn_cfg.clearance_distance
                    &&& forall|m: int| 0 <= m < world.units@.len() ==> dist_sq_xz_spec(
                        pos,
                        (#[trigger] world.units@[m]).pos,
                    ) >= spawn_cfg.clearance_distance * spawn_cfg.clearance_distance
                    &&& forall|m: int| 0 <= m < world.nodes@.len() ==> dist_sq_xz_spec(
                        pos,
                        (#[trigger] world.nodes@[m]).pos,
                    ) >= spawn_cfg.min_resource_distance * spawn_cfg.min_resource_distance
                },
                world.obstacles@.len() == 0 && world.nodes@.len() == 0 && world.units@.len() == 0
                    ==> found,
            decreases 100 - attempt,
        {
            let cx = rng_range(rng, spawn_cfg.world_min_cell, spawn_cfg.world_max_cell);
            let cz = rng_range(rng, spawn_cfg.world_min_cell, spawn_cfg.world_max_cell);
            proof {
                assert((cx * 1000) % 1000 == 0 && (cz * 1000) % 1000 == 0) by (nonlinear_arith);
                assert(-90_000_000 <= cx * 1000 <= 90_000_000 && -90_000_000 <= cz * 1000
                    <= 90_000_000) by (nonlinear_arith)
                    requires -90_000 <= cx <= 90_000 && -90_000 <= cz <= 90_000;
            }
            let p = Pos3 { x: cx * 1000, y: GROUND_Y_MU, z: cz * 1000 };
            let mut ok = true;
            let mut m: usize = 0;
            while m < world.obstacles.len()
                invariant
                    m <= world.obstacles@.len(),
                    in_field(p),
                    world.wf(),
                    0 <= spawn_cfg.clearance_distance * spawn_cfg.clearance_distance
                        <= 1_000_000_000_000,
                    ok ==> forall|w: int| 0 <= w < m ==> dist_sq_xz_spec(
                        p,
                        (#[trigger] world.obstacles@[w]).pos,
                    ) >= spawn_cfg.clearance_distance * spawn_cfg.clearance_distance,
                    world.obstacles@.len() == 0 && world.units@.len() == 0
                        && world.nodes@.len() == 0 ==> ok,
                decreases world.obstacles@.len() - m,
            {
                if dist_sq_xz(p, world.obstacles[m].pos) < spawn_cfg.clearance_distance
                    * spawn_cfg.clearance_distance {
                    ok = false;
                }
                m = m + 1;
            }
            let mut mu: usize = 0;
            while mu < world.units.len()
                invariant
                    mu <= world.units@.len(),
                    in_field(p),
                    world.wf(),
                    0 <= spawn_cfg.clearance_distance * spawn_cfg.clearance_distance
                        <= 1_000_000_000_000,
                    ok ==> forall|w: int| 0 <= w < world.obstacles@.len() ==> dist_sq_xz_spec(
                        p,
                        (#[trigger] world.obstacles@[w]).pos,
                    ) >= spawn_cfg.clearance_distance * spawn_cfg.clearance_distance,
                    ok ==> forall|w: int| 0 <= w < mu ==> dist_sq_xz_spec(
                        p,
                        (#[trigger] world.units@[w]).pos,
                    ) >= spawn_cfg.clearance_distance * spawn_cfg.clearance_distance,
                    world.obstacles@.len() == 0 && world.units@.len() == 0
                        && world.nodes@.len() == 0 ==> ok,
                decreases world.units@.len() - mu,
            {
                if dist_sq_xz(p, world.units[mu].pos) < spawn_cfg.clearance_distance
                    * spawn_cfg.clearance_distance {
                    ok = false;
                }
                mu = mu + 1;
            }
            let mut m2: usize = 0;
            while m2 < world.nodes.len()
                invariant
                    m2 <= world.nodes@.len(),
                    in_field(p),
                    world.wf(),
                    0 <= spawn_cfg.min_resource_distance * spawn_cfg.min_resource_distance
                        <= 1_000_000_000_000,
                    0 <= spawn_cfg.clearance_distance * spawn_cfg.clearance_distance
                        <= 1_000_000_000_000,
                    ok ==> forall|w: int| 0 <= w < world.obstacles@.len() ==> dist_sq_xz_spec(
                        p,
                        (#[trigger] world.obstacles@[w]).pos,
                    ) >= spawn_cfg.clearance_distance * spawn_cfg.clearance_distance,
                    ok ==> forall|w: int| 0 <= w < world.units@.len() ==> dist_sq_xz_spec(
                        p,
                        (#[trigger] world.units@[w]).pos,
                    ) >= spawn_cfg.clearance_distance * spawn_cfg.clearance_distance,
                    ok ==> forall|w: int| 0 <= w < m2 ==> dist_sq_xz_spec(
                        p,
                        (#[trigger] world.nodes@[w]).pos,
                    ) >= spawn_cfg.min_resource_distance * spawn_cfg.min_resource_distance,
                    world.obstacles@.len() == 0 && world.units@.len() == 0
                        && world.nodes@.len() == 0 ==> ok,
                decreases world.nodes@.len() - m2,
            {
                if dist_sq_xz(p, world.nodes[m2].pos) < spawn_cfg.min_resource_distance
                    * spawn_cfg.min_resource_distance {
                    ok = false;
                }
                m2 = m2 + 1;
            }
            if ok {
                pos = p;
                found = true;
                break;
            }
            attempt = attempt + 1;
        }

        if found {
            let roll = rng_range(rng, 0, 999);
            let kind = choose_kind(roll);
            let (remaining, fx, fy, fz): (u32, i64, i64, i64) = match kind {
                ResourceKind::Wood => (50, 1200, 1500, 1200),
                ResourceKind::Copper => (30, 1100, 700, 1100),
                ResourceKind::Tin => (25, 1000, 600, 1000),
            };
            let rate = kind.base_gather_rate();
            let node = ResourceNode::new(kind, remaining, rate, cfg.default_gather_radius, pos);
            let ghost nb = world.nodes@;
            let ghost obb = world.obstacles@;
            world.nodes.push(node);
            world.obstacles.push(Obstacle { pos, size_x: fx, size_y: fy, size_z: fz });
            spawned = spawned + 1;
            proof {
                assert(world.nodes@.drop_last() =~= nb);
                assert(world.obstacles@.drop_last() =~= obb);
                assert forall|a: int, b: int|
                    n0.len() <= a < world.nodes@.len() && n0.len() <= b < world.nodes@.len()
                        && a != b implies dist_sq_xz_spec(
                    world.nodes@[a].pos,
                    world.nodes@[b].pos,
                ) >= spawn_cfg.min_resource_distance * spawn_cfg.min_resource_distance by {
                    let last = world.nodes@.len() - 1;
                    if a == last || b == last {
                        let other = if a == last {
                            b
                        } else {
                            a
                        };
                        assert(dist_sq_xz_spec(pos, nb[other].pos)
                            >= spawn_cfg.min_resource_distance
                            * spawn_cfg.min_resource_distance);
                        crate::spawn::lemma_dist_sq_sym(pos, nb[other].pos);
                    }
                }
            }
        }
        round = round + 1;
    }
    spawned
}

/// Squared distance is symmetric.
pub proof fn lemma_dist_sq_sym(a: Pos3, b: Pos3)
    ensures
        dist_sq_xz_spec(a, b) == dist_sq_xz_spec(b, a),
{
    assert((a.x - b.x) * (a.x - b.x) == (b.x - a.x) * (b.x - a.x)) by (nonlinear_arith);
    assert((a.z - b.z) * (a.z - b.z) == (b.z - a.z) * (b.z - a.z)) by (nonlinear_arith);
}

} // verus!
