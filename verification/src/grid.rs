//! Fixed-point world positions, grid snapping and distance helpers.
//!
//! One grid cell spans `GRID_MU` milli-units on each horizontal axis;
//! the vertical axis carries terrain height and takes no part in the
//! grid. All simulation geometry is exact integer arithmetic.

use vstd::prelude::*;

verus! {

/// Milli-units per grid cell.
pub const GRID_MU: i64 = 1000;

/// Vertical height movement targets are pinned to.
pub const GROUND_Y_MU: i64 = 100;

/// Every coordinate of a point in the playable field stays within this bound,
/// which keeps all squared distances inside `i64`.
pub const MAX_COORD_MU: i64 = 100_000_000;

/// A world position in milli-units.
#[derive(Clone, Copy, PartialEq, Eq, Structural, Debug)]
pub struct Pos3 {
    pub x: i64,
    pub y: i64,
    pub z: i64,
}

/// A grid cell, addressed in whole cells.
#[derive(Clone, Copy, PartialEq, Eq, Structural, Debug)]
pub struct Cell {
    pub cx: i64,
    pub cz: i64,
}

/// The point lies inside the playable field.
pub open spec fn in_field(p: Pos3) -> bool {
    &&& -MAX_COORD_MU <= p.x <= MAX_COORD_MU
    &&& -MAX_COORD_MU <= p.y <= MAX_COORD_MU
    &&& -MAX_COORD_MU <= p.z <= MAX_COORD_MU
}

/// Nearest multiple of `GRID_MU`, ties rounded away from zero.
pub open spec fn snap1(v: int) -> int {
    if v >= 0 {
        ((v + 500) / 1000) * 1000
    } else {
        -(((-v + 500) / 1000) * 1000)
    }
}

/// Snapping with the height pinned to the ground, as movement targets use.
pub open spec fn snap_spec(p: Pos3) -> Pos3 {
    Pos3 { x: snap1(p.x as int) as i64, y: GROUND_Y_MU, z: snap1(p.z as int) as i64 }
}

/// Snapping that preserves the height, as display and queries use.
pub open spec fn snap_keep_y_spec(p: Pos3) -> Pos3 {
    Pos3 { x: snap1(p.x as int) as i64, y: p.y, z: snap1(p.z as int) as i64 }
}

pub proof fn lemma_snap1_range(v: int)
    requires
        -MAX_COORD_MU <= v <= MAX_COORD_MU,
    ensures
        v - 500 <= snap1(v) <= v + 500,
        -MAX_COORD_MU <= snap1(v) <= MAX_COORD_MU,
        snap1(v) % 1000 == 0,
{
    if v >= 0 {
        let q = (v + 500) / 1000;
        assert(q * 1000 <= v + 500 && v + 500 < (q + 1) * 1000) by (nonlinear_arith)
            requires q == (v + 500) / 1000 && v >= 0;
        assert((q * 1000) % 1000 == 0) by (nonlinear_arith);
    } else {
        let w = -v;
        let q = (w + 500) / 1000;
        assert(q * 1000 <= w + 500 && w + 500 < (q + 1) * 1000) by (nonlinear_arith)
            requires q == (w + 500) / 1000 && w >= 0;
        assert((-(q * 1000)) % 1000 == 0) by (nonlinear_arith);
    }
}

proof fn lemma_snap1_fixed(v: int)
    requires
        v % 1000 == 0,
    ensures
        snap1(v) == v,
{
    if v >= 0 {
        let q = v / 1000;
        assert(v == q * 1000 && q >= 0) by (nonlinear_arith)
            requires v % 1000 == 0 && v >= 0 && q == v / 1000;
        assert((q * 1000 + 500) / 1000 == q) by (nonlinear_arith)
            requires q >= 0;
    } else {
        let w = -v;
        let q = w / 1000;
        assert(w == q * 1000 && q >= 0) by (nonlinear_arith)
            requires w % 1000 == 0 && w > 0 && q == w / 1000;
        assert((q * 1000 + 500) / 1000 == q) by (nonlinear_arith)
            requires q >= 0;
    }
}

/// Snapping is idempotent: a snapped point snaps to itself, for either
/// flavour of snapping.
pub proof fn lemma_snap_idempotent(p: Pos3)
    requires
        in_field(p),
    ensures
        snap_spec(snap_spec(p)) == snap_spec(p),
        snap_keep_y_spec(snap_keep_y_spec(p)) == snap_keep_y_spec(p),
{
    lemma_snap1_range(p.x as int);
    lemma_snap1_range(p.z as int);
    lemma_snap1_fixed(snap1(p.x as int));
    lemma_snap1_fixed(snap1(p.z as int));
}

fn snap_axis(v: i64) -> (r: i64)
    requires
        -MAX_COORD_MU <= v <= MAX_COORD_MU,
    ensures
        r == snap1(v as int),
        -MAX_COORD_MU <= r <= MAX_COORD_MU,
        r % 1000 == 0,
{
    proof {
        lemma_snap1_range(v as int);
    }
    if v >= 0 {
        let q = ((v as u64) + 500) / 1000;
        (q * 1000) as i64
    } else {
        let w = (-v) as u64;
        let q = (w + 500) / 1000;
        -((q * 1000) as i64)
    }
}

/// Snaps a world position to the nearest grid centre, pinning the height
/// to the fixed ground level that movement targets use.
pub fn snap_to_grid(p: Pos3) -> (r: Pos3)
    requires
        in_field(p),
    ensures
        r == snap_spec(p),
        in_field(r),
{
    Pos3 { x: snap_axis(p.x), y: GROUND_Y_MU, z: snap_axis(p.z) }
}

/// Snaps a world position to the nearest grid centre while keeping its
/// original height, as selection queries and display do.
pub fn snap_to_grid_keep_height(p: Pos3) -> (r: Pos3)
    requires
        in_field(p),
    ensures
        r == snap_keep_y_spec(p),
        in_field(r),
{
    Pos3 { x: snap_axis(p.x), y: p.y, z: snap_axis(p.z) }
}

/// The grid cell a point resolves to.
pub open spec fn cell_spec(p: Pos3) -> Cell {
    Cell { cx: (snap1(p.x as int) / 1000) as i64, cz: (snap1(p.z as int) / 1000) as i64 }
}

/// Computes the grid cell a point resolves to.
pub fn cell_of(p: Pos3) -> (r: Cell)
    requires
        in_field(p),
    ensures
        r == cell_spec(p),
{
    let s = snap_to_grid(p);
    proof {
        lemma_snap1_range(p.x as int);
        lemma_snap1_range(p.z as int);
    }
    Cell { cx: s.x / 1000, cz: s.z / 1000 }
}

/// A slightly widened coordinate range: candidate positions produced by
/// collision resolution may leave the field before they are clamped back.
pub open spec fn in_ext(p: Pos3) -> bool {
    &&& -150_000_000 <= p.x <= 150_000_000
    &&& -150_000_000 <= p.y <= 150_000_000
    &&& -150_000_000 <= p.z <= 150_000_000
}

/// Squared distance on the horizontal plane.
pub open spec fn dist_sq_xz_spec(a: Pos3, b: Pos3) -> int {
    (a.x - b.x) * (a.x - b.x) + (a.z - b.z) * (a.z - b.z)
}

/// Squared distance in all three axes.
pub open spec fn dist_sq_3d_spec(a: Pos3, b: Pos3) -> int {
    (a.x - b.x) * (a.x - b.x) + (a.y - b.y) * (a.y - b.y) + (a.z - b.z) * (a.z - b.z)
}

/// Computes the squared horizontal distance between two field points.
pub fn dist_sq_xz(a: Pos3, b: Pos3) -> (r: i64)
    requires
        in_ext(a),
        in_ext(b),
    ensures
        r == dist_sq_xz_spec(a, b),
        0 <= r <= 180_000_000_000_000_000,
{
    let dx = a.x - b.x;
    let dz = a.z - b.z;
    proof {
        assert(dx * dx >= 0 && dz * dz >= 0) by (nonlinear_arith);
        assert(dx * dx <= 300_000_000i64 * 300_000_000i64 && dz * dz
            <= 300_000_000i64 * 300_000_000i64) by (nonlinear_arith)
            requires -300_000_000 <= dx <= 300_000_000 && -300_000_000 <= dz <= 300_000_000;
    }
    dx * dx + dz * dz
}

/// Computes the squared three-dimensional distance between two field points.
pub fn dist_sq_3d(a: Pos3, b: Pos3) -> (r: i64)
    requires
        in_ext(a),
        in_ext(b),
    ensures
        r == dist_sq_3d_spec(a, b),
        r >= 0,
{
    let dx = a.x - b.x;
    let dy = a.y - b.y;
    let dz = a.z - b.z;
    proof {
        assert(dx * dx >= 0 && dy * dy >= 0 && dz * dz >= 0) by (nonlinear_arith);
        assert(dx * dx <= 300_000_000i64 * 300_000_000i64 && dy * dy
            <= 300_000_000i64 * 300_000_000i64 && dz * dz
            <= 300_000_000i64 * 300_000_000i64) by (nonlinear_arith)
            requires -300_000_000 <= dx <= 300_000_000 && -300_000_000 <= dy <= 300_000_000
                && -300_000_000 <= dz <= 300_000_000;
    }
    dx * dx + dy * dy + dz * dz
}


/// Floor of the square root, as a specification value.
pub open spec fn sqrt_floor(n: nat) -> nat
    decreases n,
{
    if n == 0 {
        0
    } else {
        let r = sqrt_floor((n - 1) as nat);
        if (r + 1) * (r + 1) <= n {
            (r + 1) as nat
        } else {
            r
        }
    }
}

/// The defining window of the square root floor.
pub proof fn lemma_sqrt_floor_bounds(n: nat)
    ensures
        sqrt_floor(n) * sqrt_floor(n) <= n,
        n < (sqrt_floor(n) + 1) * (sqrt_floor(n) + 1),
    decreases n,
{
    if n > 0 {
        lemma_sqrt_floor_bounds((n - 1) as nat);
        let r = sqrt_floor((n - 1) as nat);
        if (r + 1) * (r + 1) <= n {
            assert(sqrt_floor(n) == r + 1);
            assert(n - 1 < (r + 1) * (r + 1));
            assert(n < (r + 1) * (r + 1) + 1);
            assert((r + 1) * (r + 1) + 1 <= (r + 2) * (r + 2)) by (nonlinear_arith);
            assert(n < (sqrt_floor(n) + 1) * (sqrt_floor(n) + 1));
        } else {
            assert(sqrt_floor(n) == r);
            assert(r * r <= n - 1);
        }
    } else {
        assert(sqrt_floor(0nat) == 0);
        assert((sqrt_floor(n) + 1) * (sqrt_floor(n) + 1) == 1) by (nonlinear_arith)
            requires sqrt_floor(n) == 0;
    }
}

/// The window determines the root: any value whose square brackets `n`
/// is the square root floor of `n`.
pub proof fn lemma_sqrt_floor_unique(n: nat, r: nat)
    requires
        r * r <= n,
        n < (r + 1) * (r + 1),
    ensures
        r == sqrt_floor(n),
{
    lemma_sqrt_floor_bounds(n);
    let s = sqrt_floor(n);
    if r < s {
        assert((r + 1) * (r + 1) <= s * s) by (nonlinear_arith)
            requires r + 1 <= s;
        assert(false);
    }
    if s < r {
        assert((s + 1) * (s + 1) <= r * r) by (nonlinear_arith)
            requires s + 1 <= r;
        assert(false);
    }
}

/// Floor of the square root.
pub fn isqrt(n: u64) -> (r: u64)
    ensures
        r * r <= n,
        n < (r + 1) * (r + 1),
        r == sqrt_floor(n as nat),
{
    let mut lo: u64 = 0;
    let mut hi: u64 = 4_294_967_296;
    if n >= 18_446_744_065_119_617_025 {
        proof {
            assert(4_294_967_295u64 * 4_294_967_295u64 == 18_446_744_065_119_617_025)
                by (nonlinear_arith);
        }
        proof {
            lemma_sqrt_floor_unique(n as nat, 4_294_967_295nat);
        }
        return 4_294_967_295;
    }
    proof {
        assert(4_294_967_296u64 * 4_294_967_296u64 > 18_446_744_065_119_617_024)
            by (nonlinear_arith);
    }
    while lo + 1 < hi
        invariant
            lo < hi <= 4_294_967_296,
            lo * lo <= n,
            n < hi * hi,
        decreases hi - lo,
    {
        let mid = lo + (hi - lo) / 2;
        proof {
            assert(mid * mid <= 4_294_967_295u64 * 4_294_967_295u64) by (nonlinear_arith)
                requires mid <= 4_294_967_295u64;
            assert(4_294_967_295u64 * 4_294_967_295u64 == 18_446_744_065_119_617_025)
                by (nonlinear_arith);
        }
        if mid * mid <= n {
            lo = mid;
        } else {
            hi = mid;
        }
    }
    proof {
        lemma_sqrt_floor_unique(n as nat, lo as nat);
    }
    lo
}

} // verus!
