//! The movement integrator: per tick, each moving unit advances toward
//! its arbitrated destination at a fixed speed, is pushed out of static
//! obstacles or slides around them, drifts apart from overlapping
//! friends, and is watched by a stuck timer that cancels orders which
//! make no progress.

use vstd::prelude::*;
use crate::grid::{
    Pos3, Cell, in_field, dist_sq_xz_spec, dist_sq_xz, isqrt, sqrt_floor, lemma_sqrt_floor_bounds,
    lemma_sqrt_floor_unique, MAX_COORD_MU, GROUND_Y_MU,
};
use crate::unit::Unit;

verus! {

/// Externally supplied configuration of the simulation core.
#[derive(Clone, Copy, PartialEq, Eq, Structural, Debug)]
pub struct SimConfig {
    /// Movement speed, milli-units per second.
    pub move_speed: i64,
    /// Distance at which a unit counts as arrived, milli-units.
    pub arrival_threshold: i64,
    /// Time without progress after which an order is cancelled, ms.
    pub stuck_threshold_ms: u32,
    /// Default harvest proximity, milli-units.
    pub default_gather_radius: i64,
    /// Default gather rate, milli-items per second.
    pub default_gather_rate: u32,
    /// Largest stack a slot may hold.
    pub max_stack_size: u16,
    /// Number of inventory slots.
    pub inventory_slots: usize,
}

impl SimConfig {
    /// Bounds every configuration keeps.
    pub open spec fn wf(self) -> bool {
        &&& 1 <= self.move_speed <= 100_000
        &&& 100 <= self.arrival_threshold <= 1_000_000
        &&& 1 <= self.stuck_threshold_ms <= 1_000_000_000
        &&& 0 <= self.default_gather_radius <= 1_000_000
        &&& 1 <= self.default_gather_rate <= 1_000_000
        &&& self.max_stack_size >= 1
        &&& self.inventory_slots == crate::inventory::INV_SLOTS
    }

    /// The canonical configuration: two cells per second, an arrival
    /// threshold of a fifth of a cell, a two-second stuck timeout, a
    /// harvest radius of one and a half cells at one item per second,
    /// and twenty-eight single-item slots.
    pub fn standard() -> (r: SimConfig)
        ensures
            r.wf(),
            r == (SimConfig {
                move_speed: 2000,
                arrival_threshold: 200,
                stuck_threshold_ms: 2000,
                default_gather_radius: 1500,
                default_gather_rate: 1000,
                max_stack_size: 1,
                inventory_slots: 28,
            }),
    {
        SimConfig {
            move_speed: 2000,
            arrival_threshold: 200,
            stuck_threshold_ms: 2000,
            default_gather_radius: 1500,
            default_gather_rate: 1000,
            max_stack_size: 1,
            inventory_slots: 28,
        }
    }
}

/// A static box obstacle, by centre and footprint.
#[derive(Clone, Copy, PartialEq, Eq, Structural, Debug)]
pub struct Obstacle {
    pub pos: Pos3,
    pub size_x: i64,
    pub size_y: i64,
    pub size_z: i64,
}

impl Obstacle {
    /// Bounds every obstacle keeps.
    pub open spec fn wf(self) -> bool {
        &&& in_field(self.pos)
        &&& 1 <= self.size_x <= 1_000_000
        &&& 1 <= self.size_y <= 1_000_000
        &&& 1 <= self.size_z <= 1_000_000
    }

    /// Approximate collision radius derived from the footprint.
    pub open spec fn radius_spec(self) -> int {
        (self.size_x + self.size_z) / 4
    }

    /// Computes the approximate collision radius.
    pub fn radius(&self) -> (r: i64)
        requires
            self.wf(),
        ensures
            r == self.radius_spec(),
            0 <= r <= 500_000,
    {
        (self.size_x + self.size_z) / 4
    }
}

/// Every obstacle in a list keeps its shape.
pub open spec fn obstacles_wf(obs: Seq<Obstacle>) -> bool {
    forall|k: int| 0 <= k < obs.len() ==> (#[trigger] obs[k]).wf()
}

/// A neighbouring unit seen by the soft-repulsion pass.
#[derive(Clone, Copy, PartialEq, Eq, Structural, Debug)]
pub struct UnitBall {
    pub pos: Pos3,
    pub radius: i64,
}

/// Every neighbour in a list keeps its shape.
pub open spec fn balls_wf(bs: Seq<UnitBall>) -> bool {
    forall|k: int| 0 <= k < bs.len() ==> in_field((#[trigger] bs[k]).pos) && 1 <= bs[k].radius
        <= 10_000
}

/// What one movement step did to one unit.
#[derive(Clone, Copy, PartialEq, Eq, Structural, Debug)]
pub enum MoveOutcome {
    /// The unit reached its destination; the order is complete.
    Arrived,
    /// The unit advanced (or was held in place) and keeps its order.
    Moved,
    /// The stuck timer expired; the order was cancelled in place.
    Cancelled,
    /// The unit had no movement order this tick.
    Stationary,
}

/// Clamps a coordinate into the playable field.
pub open spec fn clamp1(v: int) -> int {
    if v < -MAX_COORD_MU {
        -MAX_COORD_MU as int
    } else if v > MAX_COORD_MU {
        MAX_COORD_MU as int
    } else {
        v
    }
}

/// The point a unit actually walks toward: the cell centre, clamped into
/// the field, at the unit's own height.
pub open spec fn dest_pos_spec(u: Unit, c: Cell) -> Pos3 {
    Pos3 {
        x: clamp1(c.cx * 1000) as i64,
        y: u.pos.y,
        z: clamp1(c.cz * 1000) as i64,
    }
}

/// The length of one movement step, in milli-units.
pub open spec fn step_len(cfg: SimConfig, dt_ms: u32) -> int {
    cfg.move_speed * dt_ms / 1000
}

/// The unit stands clear of the obstacle.
pub open spec fn clear_of(p: Pos3, ur: int, ob: Obstacle) -> bool {
    dist_sq_xz_spec(p, ob.pos) >= (ur + ob.radius_spec()) * (ur + ob.radius_spec())
}

/// Computes the point a unit walks toward for an arbitrated cell.
pub fn dest_pos(u: &Unit, c: Cell) -> (r: Pos3)
    requires
        u.wf(),
        -200_000 <= c.cx <= 200_000,
        -200_000 <= c.cz <= 200_000,
    ensures
        r == dest_pos_spec(*u, c),
        in_field(r),
{
    let x = c.cx * 1000;
    let z = c.cz * 1000;
    let cx = if x < -MAX_COORD_MU {
        -MAX_COORD_MU
    } else if x > MAX_COORD_MU {
        MAX_COORD_MU
    } else {
        x
    };
    let cz = if z < -MAX_COORD_MU {
        -MAX_COORD_MU
    } else if z > MAX_COORD_MU {
        MAX_COORD_MU
    } else {
        z
    };
    Pos3 { x: cx, y: u.pos.y, z: cz }
}

/// Two close points cannot be far from and near to a third point at once:
/// if `a` is at least `r` from the origin-side point, `b` at most `s`
/// from it, and `a` within `t` of `b`, then `r` is at most `s + t`.
proof fn lemma_triangle(ax: int, az: int, bx: int, bz: int, r: int, s: int, t: int)
    requires
        ax * ax + az * az >= r * r,
        bx * bx + bz * bz <= s * s,
        (ax - bx) * (ax - bx) + (az - bz) * (az - bz) <= t * t,
        r >= 0,
        s >= 0,
        t >= 0,
    ensures
        r <= s + t,
{
    let dx = ax - bx;
    let dz = az - bz;
    assert(bx * bx + bz * bz >= 0 && dx * dx + dz * dz >= 0) by (nonlinear_arith);
    let pp = bx * dx;
    let qq = bz * dz;
    let uu = bx * dz;
    let vv = bz * dx;
    assert(pp * qq == uu * vv) by (nonlinear_arith)
        requires
            pp == bx * dx,
            qq == bz * dz,
            uu == bx * dz,
            vv == bz * dx,
    ;
    let aa = bx * bx;
    let bb = bz * bz;
    let cc = dx * dx;
    let ee = dz * dz;
    assert((aa + bb) * (cc + ee) == aa * cc + aa * ee + bb * cc + bb * ee) by (nonlinear_arith);
    assert(aa * cc == pp * pp) by (nonlinear_arith)
        requires aa == bx * bx && cc == dx * dx && pp == bx * dx;
    assert(aa * ee == uu * uu) by (nonlinear_arith)
        requires aa == bx * bx && ee == dz * dz && uu == bx * dz;
    assert(bb * cc == vv * vv) by (nonlinear_arith)
        requires bb == bz * bz && cc == dx * dx && vv == bz * dx;
    assert(bb * ee == qq * qq) by (nonlinear_arith)
        requires bb == bz * bz && ee == dz * dz && qq == bz * dz;
    assert((bx * bx + bz * bz) * (dx * dx + dz * dz) == pp * pp + qq * qq + uu * uu + vv * vv);
    assert((bx * dx + bz * dz) * (bx * dx + bz * dz) == pp * pp + 2 * (pp * qq) + qq * qq)
        by (nonlinear_arith)
        requires
            pp == bx * dx,
            qq == bz * dz,
    ;
    assert((uu - vv) * (uu - vv) >= 0) by (nonlinear_arith);
    assert(uu * uu + vv * vv >= 2 * (uu * vv)) by (nonlinear_arith)
        requires (uu - vv) * (uu - vv) >= 0;
    assert((bx * dx + bz * dz) * (bx * dx + bz * dz) <= (bx * bx + bz * bz) * (dx * dx + dz
        * dz));
    assert((bx * bx + bz * bz) * (dx * dx + dz * dz) <= (s * s) * (t * t)) by (nonlinear_arith)
        requires
            0 <= bx * bx + bz * bz <= s * s,
            0 <= dx * dx + dz * dz <= t * t,
    ;
    assert((s * s) * (t * t) == (s * t) * (s * t)) by (nonlinear_arith);
    assert(bx * dx + bz * dz <= s * t) by (nonlinear_arith)
        requires
            (bx * dx + bz * dz) * (bx * dx + bz * dz) <= (s * t) * (s * t),
            s * t >= 0,
    ;
    assert(ax * ax + az * az == (bx * bx + bz * bz) + 2 * (bx * dx + bz * dz) + (dx * dx + dz
        * dz)) by (nonlinear_arith)
        requires
            dx == ax - bx,
            dz == az - bz,
    ;
    assert(r * r <= (s + t) * (s + t)) by (nonlinear_arith)
        requires
            r * r <= ax * ax + az * az,
            ax * ax + az * az <= s * s + 2 * (s * t) + t * t,
    ;
    assert(r <= s + t) by (nonlinear_arith)
        requires
            r * r <= (s + t) * (s + t),
            r >= 0,
            s + t >= 0,
    ;
}


/// One axis of the capped advance: move `min(span * step / dist, span)`
/// milli-units toward the destination.
pub open spec fn axis_step(from: int, to: int, step: int, dist: int) -> int {
    let span = if to >= from {
        to - from
    } else {
        from - to
    };
    let q = span * step / dist;
    let m = if q <= span {
        q
    } else {
        span
    };
    if to >= from {
        from + m
    } else {
        from - m
    }
}

proof fn lemma_axis_step_bounds(from: int, to: int, step: int, dist: int)
    requires
        step >= 0,
        dist >= 1,
    ensures
        from <= to ==> from <= axis_step(from, to, step, dist) <= to,
        to <= from ==> to <= axis_step(from, to, step, dist) <= from,
        (if to >= axis_step(from, to, step, dist) {
            to - axis_step(from, to, step, dist)
        } else {
            axis_step(from, to, step, dist) - to
        }) <= (if to >= from {
            to - from
        } else {
            from - to
        }),
{
    let span = if to >= from {
        to - from
    } else {
        from - to
    };
    assert(span * step >= 0) by (nonlinear_arith)
        requires span >= 0 && step >= 0;
    assert(span * step / dist >= 0) by (nonlinear_arith)
        requires span * step >= 0 && dist >= 1;
}

/// Advances `pos` toward `dp` by `step` milli-units along the straight
/// line, never overshooting on either axis.
fn step_toward(pos: Pos3, dp: Pos3, step: i64, dist: i64, thr: i64) -> (r: Pos3)
    requires
        in_field(pos),
        in_field(dp),
        pos.y == dp.y,
        0 <= step <= 1_000_000,
        100 <= thr <= 1_000_000,
        dist >= 1,
        dist * dist <= dist_sq_xz_spec(pos, dp) < (dist + 1) * (dist + 1),
        dist_sq_xz_spec(pos, dp) > thr * thr,
    ensures
        in_field(r),
        r.y == pos.y,
        r.x == axis_step(pos.x as int, dp.x as int, step as int, dist as int),
        r.z == axis_step(pos.z as int, dp.z as int, step as int, dist as int),
        dist_sq_xz_spec(r, dp) <= dist_sq_xz_spec(pos, dp),
        step >= 22 ==> dist_sq_xz_spec(r, dp) < dist_sq_xz_spec(pos, dp) && dist_sq_xz_spec(
            pos,
            r,
        ) > 100,
        // The distance itself falls by about an eighth of the step each
        // tick, which bounds the journey by a multiple of the initial
        // distance over the step length.
        step >= 22 ==> 8 * sqrt_floor(dist_sq_xz_spec(r, dp) as nat) + (if step - 1 <= dist {
            step - 1
        } else {
            dist as int
        }) <= 8 * sqrt_floor(dist_sq_xz_spec(pos, dp) as nat) + 8,
{
    let adx = if dp.x >= pos.x {
        dp.x - pos.x
    } else {
        pos.x - dp.x
    };
    let adz = if dp.z >= pos.z {
        dp.z - pos.z
    } else {
        pos.z - dp.z
    };
    proof {
        assert(adx * step <= 200_000_000i64 * 1_000_000i64) by (nonlinear_arith)
            requires 0 <= adx <= 200_000_000 && 0 <= step <= 1_000_000;
        assert(adz * step <= 200_000_000i64 * 1_000_000i64) by (nonlinear_arith)
            requires 0 <= adz <= 200_000_000 && 0 <= step <= 1_000_000;
        assert(adx * step >= 0 && adz * step >= 0) by (nonlinear_arith)
            requires adx >= 0 && adz >= 0 && step >= 0;
    }
    let qx = ((adx * step) as u64 / dist as u64) as i64;
    let qz = ((adz * step) as u64 / dist as u64) as i64;
    proof {
        assert(qx as int == adx as int * (step as int) / (dist as int) && qz as int == adz as int
            * (step as int) / (dist as int));
        assert(qx >= 0 && qz >= 0);
        lemma_axis_step_bounds(pos.x as int, dp.x as int, step as int, dist as int);
        lemma_axis_step_bounds(pos.z as int, dp.z as int, step as int, dist as int);
    }
    let mx = if qx <= adx {
        qx
    } else {
        adx
    };
    let mz = if qz <= adz {
        qz
    } else {
        adz
    };
    let rx = if dp.x >= pos.x {
        pos.x + mx
    } else {
        pos.x - mx
    };
    let rz = if dp.z >= pos.z {
        pos.z + mz
    } else {
        pos.z - mz
    };
    let r = Pos3 { x: rx, y: pos.y, z: rz };
    proof {
        let nadx = adx - mx;
        let nadz = adz - mz;
        assert(dist_sq_xz_spec(pos, dp) == adx * adx + adz * adz) by (nonlinear_arith)
            requires
                adx == (if dp.x >= pos.x { dp.x - pos.x } else { pos.x - dp.x }),
                adz == (if dp.z >= pos.z { dp.z - pos.z } else { pos.z - dp.z }),
                dist_sq_xz_spec(pos, dp) == (pos.x - dp.x) * (pos.x - dp.x) + (pos.z - dp.z) * (
                pos.z - dp.z),
        ;
        assert(dist_sq_xz_spec(r, dp) == nadx * nadx + nadz * nadz) by (nonlinear_arith)
            requires
                nadx == (if dp.x >= r.x { dp.x - r.x } else { r.x - dp.x }),
                nadz == (if dp.z >= r.z { dp.z - r.z } else { r.z - dp.z }),
                dist_sq_xz_spec(r, dp) == (r.x - dp.x) * (r.x - dp.x) + (r.z - dp.z) * (r.z
                    - dp.z),
        ;
        assert(nadx * nadx <= adx * adx && nadz * nadz <= adz * adz) by (nonlinear_arith)
            requires 0 <= nadx <= adx && 0 <= nadz <= adz;
        if step >= 22 {
            assert(dist >= thr) by (nonlinear_arith)
                requires
                    adx * adx + adz * adz > thr * thr,
                    adx * adx + adz * adz < (dist + 1) * (dist + 1),
                    thr >= 0,
                    dist >= 0,
            ;
            // The larger axis spans at least half the distance.
            let am: int = if adx >= adz {
                adx as int
            } else {
                adz as int
            };
            assert(2 * (am * am) >= adx * adx + adz * adz) by (nonlinear_arith)
                requires
                    am == (if adx >= adz { adx as int } else { adz as int }),
                    adx >= 0,
                    adz >= 0,
            ;
            assert(2 * (am * am) >= dist * dist);
            assert(2 * am >= dist + 1) by (nonlinear_arith)
                requires
                    am >= 0,
                    dist >= 1,
                    2 * (am * am) >= dist * dist,
            ;
            let qm = if adx >= adz {
                qx as int
            } else {
                qz as int
            };
            let mm = if adx >= adz {
                mx as int
            } else {
                mz as int
            };
            assert(qm * dist <= am * step && am * step < (qm + 1) * dist) by (nonlinear_arith)
                requires
                    qm == am * (step as int) / (dist as int),
                    dist >= 1,
                    am * step >= 0,
            ;
            assert(2 * (qm + 1) > step) by (nonlinear_arith)
                requires
                    am * step < (qm + 1) * dist,
                    2 * am >= dist + 1,
                    dist >= 1,
                    step >= 0,
            ;
            assert(mm >= 11) by (nonlinear_arith)
                requires
                    2 * (qm + 1) > step,
                    step >= 22,
                    mm == (if qm <= am { qm } else { am as int }),
                    2 * am >= dist + 1,
                    dist >= thr,
                    thr >= 100,
            ;
            let nam = if adx >= adz {
                nadx
            } else {
                nadz
            };
            assert(nam * nam < am * am) by (nonlinear_arith)
                requires 0 <= nam && nam + 11 <= am;
            assert(dist_sq_xz_spec(pos, r) == mx * mx + mz * mz) by (nonlinear_arith)
                requires
                    dist_sq_xz_spec(pos, r) == (pos.x - r.x) * (pos.x - r.x) + (pos.z - r.z) * (
                    pos.z - r.z),
                    (pos.x - r.x == mx || r.x - pos.x == mx),
                    (pos.z - r.z == mz || r.z - pos.z == mz),
            ;
            assert(mm * mm > 100) by (nonlinear_arith)
                requires mm >= 11;
            assert(mx * mx >= 0 && mz * mz >= 0 && mm * mm <= mx * mx + mz * mz)
                by (nonlinear_arith)
                requires mm == mx || mm == mz;
            // The distance-level decrease: the capped move takes the
            // larger axis down by mm, which cuts the root of the squared
            // distance by at least a quarter of mm.
            let dsq0 = dist_sq_xz_spec(pos, dp);
            let dsqn = dist_sq_xz_spec(r, dp);
            let nao = if adx >= adz {
                nadz
            } else {
                nadx
            };
            let ao = if adx >= adz {
                adz as int
            } else {
                adx as int
            };
            assert(nam == am - mm);
            assert(am <= dist) by (nonlinear_arith)
                requires
                    am >= 0,
                    dist >= 0,
                    am * am <= dsq0,
                    dsq0 < (dist + 1) * (dist + 1),
            ;
            assert(dsqn <= dsq0 - am * mm) by (nonlinear_arith)
                requires
                    dsqn == nam * nam + nao * nao,
                    dsq0 == am * am + ao * ao,
                    nam == am - mm,
                    0 <= nao <= ao,
                    0 <= mm <= am,
            ;
            assert(16 * dsqn <= (4 * (dist + 1) - mm) * (4 * (dist + 1) - mm))
                by (nonlinear_arith)
                requires
                    dsqn <= dsq0 - am * mm,
                    dsq0 < (dist + 1) * (dist + 1),
                    2 * am >= dist + 1,
                    0 <= mm,
                    mm <= am,
                    am <= dist,
            ;
            lemma_sqrt_floor_bounds(dsqn as nat);
            let sn = sqrt_floor(dsqn as nat) as int;
            assert(4 * sn <= 4 * (dist + 1) - mm) by (nonlinear_arith)
                requires
                    sn >= 0,
                    sn * sn <= dsqn,
                    16 * dsqn <= (4 * (dist + 1) - mm) * (4 * (dist + 1) - mm),
                    4 * (dist + 1) - mm >= 0,
            ;
            assert(2 * mm >= (if step - 1 <= dist { step - 1 } else { dist as int }))
                by (nonlinear_arith)
                requires
                    mm == (if qm <= am { qm } else { am as int }),
                    2 * (qm + 1) > step,
                    2 * am >= dist + 1,
            ;
            lemma_sqrt_floor_unique(dsq0 as nat, dist as nat);
        }
    }
    r
}


/// Signed scaling of one direction component: `v * num / den`, computed
/// on the magnitude so rounding is always toward zero.
pub open spec fn scale_spec(v: int, num: int, den: int) -> int {
    if v >= 0 {
        v * num / den
    } else {
        -((-v) * num / den)
    }
}

proof fn lemma_scale_bound(p: int, c: int, m: int)
    requires
        c >= 1,
        m >= 0,
        -(m * c) <= p <= m * c,
    ensures
        -m <= scale_spec(p, 1, c) <= m,
{
    if p >= 0 {
        assert(p * 1 == p) by (nonlinear_arith);
        assert(p / c <= m) by (nonlinear_arith)
            requires p >= 0 && c >= 1 && p <= m * c;
        assert(p / c >= 0) by (nonlinear_arith)
            requires p >= 0 && c >= 1;
    } else {
        assert((-p) * 1 == -p) by (nonlinear_arith);
        assert((-p) / c <= m) by (nonlinear_arith)
            requires -p >= 0 && c >= 1 && -p <= m * c;
        assert((-p) / c >= 0) by (nonlinear_arith)
            requires -p >= 0 && c >= 1;
    }
}

fn scale_dir(v: i64, num: i64, den: i64) -> (r: i64)
    requires
        1 <= den,
        -300_000_000 <= v <= 300_000_000,
        0 <= num <= 2_000_000,
    ensures
        r == scale_spec(v as int, num as int, den as int),
        (if v >= 0 { v as int } else { -v }) <= den ==> (if r >= 0 { r as int } else { -r as int })
            <= num,
{
    let av = if v >= 0 {
        v
    } else {
        -v
    };
    proof {
        assert(av * num <= 300_000_000i64 * 2_000_000i64 && av * num >= 0) by (nonlinear_arith)
            requires 0 <= av <= 300_000_000 && 0 <= num <= 2_000_000;
        assert(av <= den ==> av as int * (num as int) / (den as int) <= num)
            by (nonlinear_arith)
            requires av >= 0 && den >= 1 && num >= 0;
    }
    let m = ((av * num) as u64 / den as u64) as i64;
    if v >= 0 {
        m
    } else {
        -m
    }
}

/// Resolves the desired step against the static obstacles, as the
/// integrator does: the first obstacle the desired position would enter
/// pushes the unit out to just beyond the radius sum; when that push
/// loses ground toward the destination the unit instead slides
/// perpendicular to the obstacle, and when even the slide would collide
/// it holds its position for this tick.
fn resolve_obstacles(
    pos: Pos3,
    desired: Pos3,
    dp: Pos3,
    ur: i64,
    step: i64,
    obstacles: &Vec<Obstacle>,
) -> (r: Pos3)
    requires
        in_field(pos),
        in_field(desired),
        in_field(dp),
        pos.y == desired.y && desired.y == dp.y,
        1 <= ur <= 10_000,
        0 <= step <= 1_000_000,
        obstacles_wf(obstacles@),
    ensures
        r.y == pos.y,
        -102_000_000 <= r.x <= 102_000_000,
        -102_000_000 <= r.z <= 102_000_000,
        obstacles@.len() == 0 ==> r == desired,
        (forall|k: int|
            0 <= k < obstacles@.len() ==> clear_of(desired, ur as int, #[trigger] obstacles@[k]))
            ==> r == desired,
        forall|k: int|
            0 <= k < obstacles@.len() && clear_of(pos, ur as int, #[trigger] obstacles@[k])
                && obstacles@.len() == 1 ==> (r == pos || clear_of(r, ur as int, obstacles@[k])),
        r == desired || r == pos || (exists|k: int|
            0 <= k < obstacles@.len() && (if r.x >= (#[trigger] obstacles@[k]).pos.x {
                r.x - obstacles@[k].pos.x
            } else {
                obstacles@[k].pos.x - r.x
            }) <= ur + obstacles@[k].radius_spec() + 100 && (if r.z >= obstacles@[k].pos.z {
                r.z - obstacles@[k].pos.z
            } else {
                obstacles@[k].pos.z - r.z
            }) <= ur + obstacles@[k].radius_spec() + 100) || ((if r.x >= pos.x {
            r.x - pos.x
        } else {
            pos.x - r.x
        }) <= step && (if r.z >= pos.z {
            r.z - pos.z
        } else {
            pos.z - r.z
        }) <= step),
{
    let n = obstacles.len();
    let mut k: usize = 0;
    while k < n
        invariant
            k <= n,
            n == obstacles@.len(),
            in_field(pos),
            in_field(desired),
            in_field(dp),
            pos.y == desired.y && desired.y == dp.y,
            1 <= ur <= 10_000,
            0 <= step <= 1_000_000,
            obstacles_wf(obstacles@),
            forall|m: int| 0 <= m < k ==> clear_of(desired, ur as int, #[trigger] obstacles@[m]),
        decreases n - k,
    {
        let ob = obstacles[k];
        let orad = ob.radius();
        let rs = ur + orad;
        let dsq2 = dist_sq_xz(desired, ob.pos);
        proof {
            assert(rs * rs <= 510_100i64 * 510_100i64 && rs * rs >= 0) by (nonlinear_arith)
                requires 1 <= rs <= 510_100;
        }
        if dsq2 < rs * rs {
            // Collision: push the unit out along the centre-to-position ray.
            let d2u = isqrt(dsq2 as u64);
            proof {
                assert(d2u <= 510_100) by (nonlinear_arith)
                    requires
                        d2u * d2u <= dsq2 as u64,
                        (dsq2 as u64) < 510_100u64 * 510_100u64,
                ;
            }
            let d2 = d2u as i64;
            if d2 == 0 {
                return pos;
            }
            let safe = rs + 100;
            let px = scale_dir(desired.x - ob.pos.x, safe, d2);
            let pz = scale_dir(desired.z - ob.pos.z, safe, d2);
            proof {
                assert((if desired.x - ob.pos.x >= 0 { desired.x - ob.pos.x } else { ob.pos.x
                    - desired.x }) <= d2 && (if desired.z - ob.pos.z >= 0 { desired.z - ob.pos.z
                } else { ob.pos.z - desired.z }) <= d2) by (nonlinear_arith)
                    requires
                        (desired.x - ob.pos.x) * (desired.x - ob.pos.x) + (desired.z - ob.pos.z)
                            * (desired.z - ob.pos.z) == dsq2,
                        dsq2 < (d2 + 1) * (d2 + 1),
                        d2 >= 0,
                ;
            }
            let cand = Pos3 { x: ob.pos.x + px, y: pos.y, z: ob.pos.z + pz };
            let cand_clear = dist_sq_xz(cand, ob.pos) >= rs * rs;
            let lost_ground = dist_sq_xz(cand, dp) > dist_sq_xz(pos, dp);
            if cand_clear && !lost_ground {
                return cand;
            }
            // Try sliding perpendicular to the obstacle.
            let tox = ob.pos.x - pos.x;
            let toz = ob.pos.z - pos.z;
            let d3sq = dist_sq_xz(ob.pos, pos);
            let d3u = isqrt(d3sq as u64);
            proof {
                assert(d3u <= 450_000_000) by (nonlinear_arith)
                    requires
                        d3u * d3u <= d3sq as u64,
                        (d3sq as u64) <= 450_000_000u64 * 450_000_000u64,
                ;
            }
            let d3 = d3u as i64;
            if d3 == 0 {
                return pos;
            }
            proof {
                assert((if toz >= 0 { toz as int } else { -toz }) <= d3 && (if tox >= 0 { tox as int } else {
                    -tox }) <= d3) by (nonlinear_arith)
                    requires
                        tox * tox + toz * toz == d3sq,
                        d3sq < (d3 + 1) * (d3 + 1),
                        d3 >= 0,
                ;
            }
            let s1 = Pos3 {
                x: pos.x + scale_dir(-toz, step, d3),
                y: pos.y,
                z: pos.z + scale_dir(tox, step, d3),
            };
            let s2 = Pos3 {
                x: pos.x - scale_dir(-toz, step, d3),
                y: pos.y,
                z: pos.z - scale_dir(tox, step, d3),
            };
            let chosen = if dist_sq_xz(s1, dp) < dist_sq_xz(s2, dp) {
                s1
            } else {
                s2
            };
            if dist_sq_xz(chosen, ob.pos) < rs * rs {
                return pos;
            }
            return chosen;
        }
        k = k + 1;
    }
    desired
}

/// Soft unit-unit repulsion: nudges the resolved position away from each
/// overlapping neighbour, the nudge averaged over the neighbours and
/// clamped to half the unit's radius so no unit visibly jumps.
fn repulse(desired: Pos3, resolved: Pos3, ur: i64, others: &Vec<UnitBall>) -> (r: Pos3)
    requires
        -102_000_000 <= desired.x <= 102_000_000,
        -102_000_000 <= desired.z <= 102_000_000,
        -102_000_000 <= resolved.x <= 102_000_000,
        -102_000_000 <= resolved.z <= 102_000_000,
        desired.y == resolved.y,
        -150_000_000 <= desired.y <= 150_000_000,
        1 <= ur <= 10_000,
        balls_wf(others@),
        others@.len() <= 10_000,
    ensures
        r.y == resolved.y,
        -103_000_000 <= r.x <= 103_000_000,
        -103_000_000 <= r.z <= 103_000_000,
        others@.len() == 0 ==> r == resolved,
        // The nudge is clamped: the unit lands within half its radius of
        // the resolved position, or — when the clamp engaged — within
        // half its radius of the desired position. No unit teleports.
        ((if r.x >= resolved.x {
            r.x - resolved.x
        } else {
            resolved.x - r.x
        }) <= ur / 2 && (if r.z >= resolved.z {
            r.z - resolved.z
        } else {
            resolved.z - r.z
        }) <= ur / 2) || ((if r.x >= desired.x {
            r.x - desired.x
        } else {
            desired.x - r.x
        }) <= ur / 2 && (if r.z >= desired.z {
            r.z - desired.z
        } else {
            desired.z - r.z
        }) <= ur / 2),
{
    let n = others.len();
    if n == 0 {
        return resolved;
    }
    let mut push_x: i64 = 0;
    let mut push_z: i64 = 0;
    let mut cnt: i64 = 0;
    let mut k: usize = 0;
    while k < n
        invariant
            k <= n,
            n == others@.len(),
            n <= 10_000,
            -102_000_000 <= resolved.x <= 102_000_000,
            -102_000_000 <= resolved.z <= 102_000_000,
            -150_000_000 <= resolved.y <= 150_000_000,
            1 <= ur <= 10_000,
            balls_wf(others@),
            0 <= cnt <= k,
            -(20_000 * cnt) <= push_x <= 20_000 * cnt,
            -(20_000 * cnt) <= push_z <= 20_000 * cnt,
        decreases n - k,
    {
        let o = others[k];
        let comb = ur + o.radius;
        let dsqn = dist_sq_xz(resolved, o.pos);
        proof {
            assert(comb * comb <= 20_000i64 * 20_000i64) by (nonlinear_arith)
                requires 0 <= comb <= 20_000;
        }
        if dsqn < comb * comb && dsqn > 100 {
            let dnu = isqrt(dsqn as u64);
            proof {
                assert(dnu <= 20_000) by (nonlinear_arith)
                    requires
                        dnu * dnu <= dsqn as u64,
                        (dsqn as u64) < 20_000u64 * 20_000u64,
                ;
            }
            proof {
                assert(dnu < comb) by (nonlinear_arith)
                    requires
                        dnu * dnu <= dsqn as u64,
                        (dsqn as u64) < (comb as u64) * (comb as u64),
                        comb >= 0,
                ;
            }
            let dn = dnu as i64;
            proof {
                assert((if resolved.x - o.pos.x >= 0 { resolved.x - o.pos.x } else { o.pos.x
                    - resolved.x }) <= dn && (if resolved.z - o.pos.z >= 0 { resolved.z - o.pos.z
                } else { o.pos.z - resolved.z }) <= dn) by (nonlinear_arith)
                    requires
                        (resolved.x - o.pos.x) * (resolved.x - o.pos.x) + (resolved.z - o.pos.z)
                            * (resolved.z - o.pos.z) == dsqn,
                        dsqn < (dn + 1) * (dn + 1),
                        dn >= 0,
                ;
            }
            if dn >= 10 {
                let ovl = comb - dn;
                let fac = ovl * 3 / 10;
                proof {
                    assert(0 <= ovl * 3 <= 60_000) by (nonlinear_arith)
                        requires 0 <= ovl <= 20_000;
                }
                let tx = scale_dir(resolved.x - o.pos.x, fac, dn);
                let tz = scale_dir(resolved.z - o.pos.z, fac, dn);
                push_x = push_x + tx;
                push_z = push_z + tz;
                cnt = cnt + 1;
                proof {
                    assert(-(20_000 * (cnt - 1)) - 20_000 <= push_x <= 20_000 * (cnt - 1)
                        + 20_000 ==> -(20_000 * cnt) <= push_x <= 20_000 * cnt)
                        by (nonlinear_arith);
                    assert(-(20_000 * (cnt - 1)) - 20_000 <= push_z <= 20_000 * (cnt - 1)
                        + 20_000 ==> -(20_000 * cnt) <= push_z <= 20_000 * cnt)
                        by (nonlinear_arith);
                }
            }
        }
        k = k + 1;
    }
    if cnt == 0 {
        return resolved;
    }
    proof {
        assert(-200_000_000 <= push_x <= 200_000_000 && -200_000_000 <= push_z <= 200_000_000)
            by (nonlinear_arith)
            requires
                1 <= cnt <= 10_000,
                -(20_000 * cnt) <= push_x <= 20_000 * cnt,
                -(20_000 * cnt) <= push_z <= 20_000 * cnt,
        ;
    }
    let avg_x = scale_dir(push_x, 1, cnt);
    let avg_z = scale_dir(push_z, 1, cnt);
    proof {
        lemma_scale_bound(push_x as int, cnt as int, 20_000);
        lemma_scale_bound(push_z as int, cnt as int, 20_000);
        assert(0 <= avg_x * avg_x <= 400_000_000 && 0 <= avg_z * avg_z <= 400_000_000)
            by (nonlinear_arith)
            requires -20_000 <= avg_x <= 20_000 && -20_000 <= avg_z <= 20_000;
    }
    let lsq = avg_x * avg_x + avg_z * avg_z;
    let max_push = ur / 2;
    proof {
        assert(max_push * max_push <= 5_000i64 * 5_000i64 && max_push >= 0) by (nonlinear_arith)
            requires 0 <= max_push <= 5_000;
    }
    if lsq > max_push * max_push {
        // Clamp: land at the desired position plus the capped nudge.
        let lu = isqrt(lsq as u64);
        proof {
            assert(lu <= 30_000) by (nonlinear_arith)
                requires
                    lu * lu <= lsq as u64,
                    (lsq as u64) <= 800_000_000u64,
            ;
        }
        let l = lu as i64;
        proof {
            assert(l >= 1) by (nonlinear_arith)
                requires
                    l >= 0,
                    lsq < (l + 1) * (l + 1),
                    lsq > max_push * max_push,
                    max_push >= 0,
            ;
            assert((if avg_x >= 0 { avg_x as int } else { -avg_x }) <= l && (if avg_z >= 0 { avg_z as int
            } else { -avg_z }) <= l) by (nonlinear_arith)
                requires
                    avg_x * avg_x + avg_z * avg_z == lsq,
                    lsq < (l + 1) * (l + 1),
                    l >= 0,
            ;
        }
        Pos3 {
            x: desired.x + scale_dir(avg_x, max_push, l),
            y: resolved.y,
            z: desired.z + scale_dir(avg_z, max_push, l),
        }
    } else {
        proof {
            assert(avg_x * avg_x <= max_push * max_push && avg_z * avg_z <= max_push * max_push);
            assert(-max_push <= avg_x <= max_push && -max_push <= avg_z <= max_push)
                by (nonlinear_arith)
                requires
                    max_push >= 0,
                    avg_x * avg_x <= max_push * max_push,
                    avg_z * avg_z <= max_push * max_push,
            ;
        }
        Pos3 { x: resolved.x + avg_x, y: resolved.y, z: resolved.z + avg_z }
    }
}


/// The point lies well inside the field, far enough from the edge that
/// one tick's worth of collision resolution cannot reach the boundary.
pub open spec fn interior(p: Pos3) -> bool {
    &&& -97_000_000 <= p.x <= 97_000_000
    &&& -97_000_000 <= p.z <= 97_000_000
}

/// What one movement step does to one unit: the complete relation
/// between the unit's prior state, its arbitrated cell, the obstacles,
/// the number of neighbours it saw, the outcome and its next state.
pub open spec fn move_step_rel(
    u0: Unit,
    u1: Unit,
    cell: Cell,
    r: MoveOutcome,
    obstacles: Seq<Obstacle>,
    others_len: int,
    dt_ms: u32,
    cfg: SimConfig,
) -> bool {
    let dp = dest_pos_spec(u0, cell);
    let dsq0 = dist_sq_xz_spec(u0.pos, dp);
    let thr = cfg.arrival_threshold as int;
    let stp = step_len(cfg, dt_ms);
    &&& u1.radius == u0.radius
    &&& u1.primary == u0.primary
    &&& u1.allow_overlap == u0.allow_overlap
    &&& u1.task == u0.task
    &&& u1.inventory.slots@ == u0.inventory.slots@
    &&& u1.pos.y == u0.pos.y
    &&& r != MoveOutcome::Stationary
    &&& ((r == MoveOutcome::Arrived) <==> dsq0 <= thr * thr)
    &&& (r == MoveOutcome::Arrived ==> u1.pos == dp && !u1.moving && u1.dest is None
        && u1.stuck_ms == 0 && u1.heading_x == u0.heading_x && u1.heading_z == u0.heading_z)
    &&& (r == MoveOutcome::Cancelled ==> u1.pos == u0.pos && !u1.moving && u1.dest is None
        && u1.stuck_ms == 0 && u0.stuck_ms + dt_ms > cfg.stuck_threshold_ms && u1.heading_x
        == u0.heading_x && u1.heading_z == u0.heading_z)
    &&& (r == MoveOutcome::Moved ==> u1.moving && u1.dest == u0.dest && (dist_sq_xz_spec(
        u0.pos,
        u1.pos,
    ) > 100 ==> u1.stuck_ms == 0) && (dist_sq_xz_spec(u0.pos, u1.pos) <= 100 ==> u1.stuck_ms
        == u0.stuck_ms + dt_ms && u0.stuck_ms + dt_ms <= cfg.stuck_threshold_ms)
        && u1.heading_x == dp.x - u0.pos.x && u1.heading_z == dp.z - u0.pos.z)
    // With no obstacles and no repulsion the new position is exactly the
    // capped straight-line step.
    &&& (obstacles.len() == 0 && (!u0.allow_overlap || others_len == 0) && r
        == MoveOutcome::Moved ==> u1.pos.x == axis_step(
        u0.pos.x as int,
        dp.x as int,
        stp,
        sqrt_floor(dsq0 as nat) as int,
    ) && u1.pos.z == axis_step(u0.pos.z as int, dp.z as int, stp, sqrt_floor(dsq0 as nat) as int))
    // Unobstructed progress: with no obstacles and no repulsion, a tick
    // long enough for a real step strictly closes the distance, by about
    // an eighth of the step.
    &&& (obstacles.len() == 0 && (!u0.allow_overlap || others_len == 0) && dsq0 > thr * thr
        && stp >= 22 ==> r == MoveOutcome::Moved && dist_sq_xz_spec(u1.pos, dp) < dsq0
        && u1.stuck_ms == 0 && 8 * sqrt_floor(dist_sq_xz_spec(u1.pos, dp) as nat) + (if stp - 1
        <= sqrt_floor(dsq0 as nat) as int {
        stp - 1
    } else {
        sqrt_floor(dsq0 as nat) as int
    }) <= 8 * sqrt_floor(dsq0 as nat) + 8)
    // Obstacle safety: a unit standing clear of the only obstacle,
    // ordered deep into its footprint, never enters the radius sum.
    &&& (obstacles.len() == 1 && (!u0.allow_overlap || others_len == 0) && ({
        let ob = obstacles[0];
        let rs = u0.radius + ob.radius_spec();
        &&& clear_of(u0.pos, u0.radius as int, ob)
        &&& rs - thr - 1 >= 0
        &&& dist_sq_xz_spec(dp, ob.pos) <= (rs - thr - 1) * (rs - thr - 1)
        &&& interior(u0.pos)
        &&& interior(dp)
        &&& interior(ob.pos)
    }) ==> clear_of(u1.pos, u0.radius as int, obstacles[0]))
}

/// Advances one moving unit one tick toward its arbitrated cell: arrival
/// within the threshold completes the order; otherwise the unit takes a
/// capped straight-line step, is deflected by static obstacles, drifts
/// away from overlapping friends, and accumulates stuck time whenever the
/// tick produced no real displacement, cancelling the order once the
/// stuck threshold is passed.
pub fn move_unit_step(
    unit: &mut Unit,
    dest_cell: Cell,
    obstacles: &Vec<Obstacle>,
    others: &Vec<UnitBall>,
    dt_ms: u32,
    cfg: &SimConfig,
) -> (r: MoveOutcome)
    requires
        old(unit).wf(),
        old(unit).moving,
        cfg.wf(),
        obstacles_wf(obstacles@),
        balls_wf(others@),
        others@.len() <= 10_000,
        1 <= dt_ms <= 10_000,
        -200_000 <= dest_cell.cx <= 200_000,
        -200_000 <= dest_cell.cz <= 200_000,
    ensures
        final(unit).wf(),
        move_step_rel(
            *old(unit),
            *final(unit),
            dest_cell,
            r,
            obstacles@,
            others@.len() as int,
            dt_ms,
            *cfg,
        ),
{
    let u_pos = unit.pos;
    let dp = dest_pos(unit, dest_cell);
    let dsq0 = dist_sq_xz(u_pos, dp);
    let thr = cfg.arrival_threshold;
    proof {
        assert(10_000 <= thr * thr <= 1_000_000i64 * 1_000_000i64) by (nonlinear_arith)
            requires 100 <= thr <= 1_000_000;
    }
    if dsq0 <= thr * thr {
        proof {
            // A destination deep inside the only obstacle is unreachable:
            // the unit would have to stand inside the radius sum already.
            if obstacles@.len() == 1 {
                let ob = obstacles@[0];
                let rs = old(unit).radius as int + ob.radius_spec();
                if clear_of(old(unit).pos, old(unit).radius as int, ob) && rs - thr - 1 >= 0
                    && dist_sq_xz_spec(dp, ob.pos) <= (rs - thr - 1) * (rs - thr - 1) {
                    lemma_triangle(
                        u_pos.x - ob.pos.x as int,
                        u_pos.z - ob.pos.z as int,
                        dp.x - ob.pos.x as int,
                        dp.z - ob.pos.z as int,
                        rs,
                        rs - thr - 1,
                        thr as int,
                    );
                    assert(false);
                }
            }
        }
        unit.pos = dp;
        unit.moving = false;
        unit.dest = Option::None;
        unit.stuck_ms = 0;
        return MoveOutcome::Arrived;
    }
    proof {
        assert(0 <= cfg.move_speed * (dt_ms as i64) <= 1_000_000_000) by (nonlinear_arith)
            requires 1 <= cfg.move_speed <= 100_000 && 1 <= dt_ms as i64 <= 10_000;
    }
    let step = cfg.move_speed * (dt_ms as i64) / 1000;
    let distu = isqrt(dsq0 as u64);
    proof {
        assert(distu <= 450_000_000) by (nonlinear_arith)
            requires
                distu * distu <= dsq0 as u64,
                (dsq0 as u64) <= 450_000_000u64 * 450_000_000u64,
        ;
        assert(distu >= 1) by (nonlinear_arith)
            requires
                (dsq0 as u64) < (distu + 1) * (distu + 1),
                (dsq0 as u64) > 100,
        ;
    }
    let dist = distu as i64;
    proof {
        assert(dist as nat == sqrt_floor(dsq0 as nat));
    }
    let desired = step_toward(u_pos, dp, step, dist, thr);
    let resolved = resolve_obstacles(u_pos, desired, dp, unit.radius, step, obstacles);
    let after_rep = if unit.allow_overlap {
        repulse(desired, resolved, unit.radius, others)
    } else {
        resolved
    };
    let nx = if after_rep.x < -MAX_COORD_MU {
        -MAX_COORD_MU
    } else if after_rep.x > MAX_COORD_MU {
        MAX_COORD_MU
    } else {
        after_rep.x
    };
    let nz = if after_rep.z < -MAX_COORD_MU {
        -MAX_COORD_MU
    } else if after_rep.z > MAX_COORD_MU {
        MAX_COORD_MU
    } else {
        after_rep.z
    };
    let new_pos = Pos3 { x: nx, y: u_pos.y, z: nz };
    proof {
        if obstacles@.len() == 1 && (!old(unit).allow_overlap || others@.len() == 0) {
            let ob = obstacles@[0];
            let rs = old(unit).radius + ob.radius_spec();
            if clear_of(old(unit).pos, old(unit).radius as int, ob) && rs - thr - 1 >= 0
                && dist_sq_xz_spec(dp, ob.pos) <= (rs - thr - 1) * (rs - thr - 1)
                && interior(old(unit).pos) && interior(dp) && interior(ob.pos) {
                assert(after_rep == resolved);
                assert(resolved == u_pos || clear_of(resolved, old(unit).radius as int, ob));
                assert(new_pos == resolved);
                assert(clear_of(new_pos, old(unit).radius as int, ob));
            }
        }
    }
    proof {
        // With no obstacles and no repulsion, nothing deflects the step:
        // the landing point is the capped straight-line advance.
        if obstacles@.len() == 0 && (!old(unit).allow_overlap || others@.len() == 0) {
            assert(after_rep == desired);
            assert(new_pos == desired);
        }
    }
    let moved_sq = dist_sq_xz(u_pos, new_pos);
    if moved_sq > 100 {
        unit.stuck_ms = 0;
        unit.heading_x = dp.x - u_pos.x;
        unit.heading_z = dp.z - u_pos.z;
        unit.pos = new_pos;
        MoveOutcome::Moved
    } else {
        let ns = unit.stuck_ms as u64 + dt_ms as u64;
        if ns > cfg.stuck_threshold_ms as u64 {
            unit.moving = false;
            unit.dest = Option::None;
            unit.stuck_ms = 0;
            unit.pos = u_pos;
            return MoveOutcome::Cancelled;
        }
        unit.stuck_ms = ns as u32;
        unit.heading_x = dp.x - u_pos.x;
        unit.heading_z = dp.z - u_pos.z;
        unit.pos = new_pos;
        MoveOutcome::Moved
    }
}


/// Pins every unit at or above the ground height, so no model ever clips
/// into the terrain.
pub fn maintain_ground_clearance(units: &mut Vec<Unit>)
    requires
        forall|j: int| 0 <= j < old(units)@.len() ==> (#[trigger] old(units)@[j]).wf(),
    ensures
        final(units)@.len() == old(units)@.len(),
        forall|j: int| 0 <= j < final(units)@.len() ==> (#[trigger] final(units)@[j]).wf(),
        forall|j: int| 0 <= j < final(units)@.len() ==> (#[trigger] final(units)@[j]) == (Unit {
            pos: Pos3 {
                y: if old(units)@[j].pos.y < GROUND_Y_MU {
                    GROUND_Y_MU
                } else {
                    old(units)@[j].pos.y
                },
                ..old(units)@[j].pos
            },
            ..old(units)@[j]
        }),
{
    let ghost u0 = units@;
    let n = units.len();
    let mut i: usize = 0;
    while i < n
        invariant
            i <= n,
            n == units@.len(),
            u0.len() == n,
            forall|j: int| 0 <= j < n ==> (#[trigger] u0[j]).wf(),
            forall|j: int| i <= j < n ==> units@[j] == u0[j],
            forall|j: int| 0 <= j < i ==> (#[trigger] units@[j]) == (Unit {
                pos: Pos3 {
                    y: if u0[j].pos.y < GROUND_Y_MU {
                        GROUND_Y_MU
                    } else {
                        u0[j].pos.y
                    },
                    ..u0[j].pos
                },
                ..u0[j]
            }),
            forall|j: int| 0 <= j < n ==> (#[trigger] units@[j]).wf(),
        decreases n - i,
    {
        let ghost ub = units@;
        if units[i].pos.y < GROUND_Y_MU {
            let u_ref = &mut units[i];
            u_ref.pos = Pos3 { x: u_ref.pos.x, y: GROUND_Y_MU, z: u_ref.pos.z };
        }
        proof {
            assert forall|j: int| 0 <= j < i + 1 implies (#[trigger] units@[j]) == (Unit {
                pos: Pos3 {
                    y: if u0[j].pos.y < GROUND_Y_MU {
                        GROUND_Y_MU
                    } else {
                        u0[j].pos.y
                    },
                    ..u0[j].pos
                },
                ..u0[j]
            }) by {
                if j < i as int {
                    assert(units@[j] == ub[j]);
                }
            }
        }
        i = i + 1;
    }
}


/// Arrival termination: any run of states whose measure starts at `d`,
/// stays non-negative and strictly falls from each state to the next has
/// at most `d + 1` states. Applied to the squared distance to the
/// destination, which every unobstructed movement tick strictly lowers
/// until the arrival threshold is reached, this bounds the number of
/// ticks a unit can spend on its way.
pub proof fn lemma_bounded_descent(m: Seq<int>)
    requires
        forall|i: int| 0 <= i < m.len() ==> #[trigger] m[i] >= 0,
        forall|i: int| 0 <= i < m.len() - 1 ==> #[trigger] m[i + 1] < m[i],
    ensures
        m.len() > 0 ==> m.len() <= m[0] + 1,
    decreases m.len(),
{
    if m.len() > 1 {
        let rest = m.subrange(1, m.len() as int);
        assert(forall|i: int| 0 <= i < rest.len() ==> #[trigger] rest[i] == m[i + 1]);
        assert forall|i: int| 0 <= i < rest.len() - 1 implies #[trigger] rest[i + 1]
            < rest[i] by {
            assert(rest[i] == m[i + 1] && rest[i + 1] == m[i + 2]);
            assert(m[(i + 1) + 1int] < m[i + 1int]);
        }
        lemma_bounded_descent(rest);
        assert(rest[0] == m[1]);
        assert(m[0int + 1] < m[0int]);
    }
}


/// Arrival termination, composed over a whole run of ticks: a unit that
/// steps tick after tick by the movement relation toward the same cell,
/// with no obstacles and no neighbours and a tick worth a real step,
/// must arrive within a number of ticks proportional to its initial
/// distance divided by the step length — once the run is longer than
/// `8·distance / (min(step − 1, threshold) − 8)` ticks, one of its
/// outcomes was the arrival, which clears the order.
pub proof fn lemma_arrival_termination(
    states: Seq<Unit>,
    outs: Seq<MoveOutcome>,
    cell: Cell,
    dt_ms: u32,
    cfg: SimConfig,
)
    requires
        states.len() == outs.len() + 1,
        cfg.wf(),
        step_len(cfg, dt_ms) >= 22,
        forall|i: int|
            0 <= i < outs.len() ==> move_step_rel(
                states[i],
                states[i + 1],
                cell,
                #[trigger] outs[i],
                Seq::empty(),
                0,
                dt_ms,
                cfg,
            ),
        outs.len() * ((if step_len(cfg, dt_ms) - 1 <= cfg.arrival_threshold as int {
            step_len(cfg, dt_ms) - 1
        } else {
            cfg.arrival_threshold as int
        }) - 8) > 8 * sqrt_floor(
            dist_sq_xz_spec(states[0].pos, dest_pos_spec(states[0], cell)) as nat,
        ),
    ensures
        exists|i: int| 0 <= i < outs.len() && outs[i] == MoveOutcome::Arrived,
    decreases outs.len(),
{
    let stp = step_len(cfg, dt_ms);
    let thr = cfg.arrival_threshold as int;
    let q = (if stp - 1 <= thr {
        stp - 1
    } else {
        thr
    }) - 8;
    let dp0 = dest_pos_spec(states[0], cell);
    let dsq0 = dist_sq_xz_spec(states[0].pos, dp0);
    assert(dsq0 >= 0) by (nonlinear_arith)
        requires dsq0 == (states[0].pos.x - dp0.x) * (states[0].pos.x - dp0.x) + (states[0].pos.z
            - dp0.z) * (states[0].pos.z - dp0.z);
    assert(q >= 13);
    assert(outs.len() >= 1) by (nonlinear_arith)
        requires
            outs.len() * q > 8 * sqrt_floor(dsq0 as nat),
            sqrt_floor(dsq0 as nat) >= 0,
            q >= 13,
    ;
    if outs[0] == MoveOutcome::Arrived {
    } else {
        let d0 = sqrt_floor(dsq0 as nat) as int;
        lemma_sqrt_floor_bounds(dsq0 as nat);
        // Not arrived, so the unit stood beyond the threshold and, the
        // tick being unobstructed, the quantitative progress clause bit.
        assert(move_step_rel(states[0], states[1], cell, outs[0], Seq::empty(), 0, dt_ms, cfg));
        assert(dsq0 > thr * thr);
        assert(d0 >= thr) by (nonlinear_arith)
            requires
                (d0 + 1) * (d0 + 1) > dsq0,
                dsq0 > thr * thr,
                d0 >= 0,
                thr >= 0,
        ;
        let dp1own = dest_pos_spec(states[1], cell);
        let dsq1 = dist_sq_xz_spec(states[1].pos, dp1own);
        assert(dsq1 == dist_sq_xz_spec(states[1].pos, dp0));
        assert(8 * sqrt_floor(dsq1 as nat) + q <= 8 * d0);
        let sub_states = states.subrange(1, states.len() as int);
        let sub_outs = outs.subrange(1, outs.len() as int);
        assert forall|i: int|
            0 <= i < sub_outs.len() implies move_step_rel(
            sub_states[i],
            sub_states[i + 1],
            cell,
            #[trigger] sub_outs[i],
            Seq::empty(),
            0,
            dt_ms,
            cfg,
        ) by {
            assert(sub_states[i] == states[i + 1] && sub_states[i + 1] == states[i + 2]
                && sub_outs[i] == outs[i + 1]);
            assert(move_step_rel(
                states[i + 1],
                states[i + 1 + 1],
                cell,
                outs[i + 1],
                Seq::empty(),
                0,
                dt_ms,
                cfg,
            ));
        }
        assert(sub_outs.len() * q > 8 * sqrt_floor(dsq1 as nat)) by (nonlinear_arith)
            requires
                outs.len() * q > 8 * sqrt_floor(dsq0 as nat),
                8 * sqrt_floor(dsq1 as nat) + q <= 8 * sqrt_floor(dsq0 as nat),
                sub_outs.len() == outs.len() - 1,
                outs.len() >= 1,
                q >= 13,
        ;
        assert(sub_states[0] == states[1]);
        lemma_arrival_termination(sub_states, sub_outs, cell, dt_ms, cfg);
        let w = choose|i: int| 0 <= i < sub_outs.len() && sub_outs[i] == MoveOutcome::Arrived;
        assert(outs[w + 1] == MoveOutcome::Arrived);
    }
}

} // verus!
