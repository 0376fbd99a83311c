//! Ray tests used for picking: ray against ground plane, box and
//! cylinder. All tests are exact: rational comparisons are carried out by
//! cross-multiplication, so no rounding can flip a verdict.

use vstd::prelude::*;
use crate::grid::{Pos3, in_field};

verus! {

/// A ray: origin and an unnormalised direction in milli-units. Scaling
/// the direction does not change what the ray hits.
#[derive(Clone, Copy, PartialEq, Eq, Structural, Debug)]
pub struct Ray {
    pub origin: Pos3,
    pub dir_x: i64,
    pub dir_y: i64,
    pub dir_z: i64,
}

impl Ray {
    /// Bounds every ray keeps: origin in the field, direction bounded and
    /// not the zero vector.
    pub open spec fn wf(self) -> bool {
        &&& in_field(self.origin)
        &&& -10_000 <= self.dir_x <= 10_000
        &&& -10_000 <= self.dir_y <= 10_000
        &&& -10_000 <= self.dir_z <= 10_000
        &&& !(self.dir_x == 0 && self.dir_y == 0 && self.dir_z == 0)
    }
}

/// Where a downward ray meets the horizontal plane at `ground_y`:
/// the horizontal coordinates shift by `dir * (ground_y - origin.y) / dir.y`,
/// rounded toward the origin.
pub open spec fn ground_hit_spec(r: Ray, ground_y: int) -> Pos3 {
    let num = ground_y - r.origin.y;
    Pos3 {
        x: (r.origin.x + trunc_div(r.dir_x * num, r.dir_y as int)) as i64,
        y: ground_y as i64,
        z: (r.origin.z + trunc_div(r.dir_z * num, r.dir_y as int)) as i64,
    }
}

/// Division truncated toward zero.
pub open spec fn trunc_div(a: int, b: int) -> int {
    let m = (if a >= 0 {
        a
    } else {
        -a
    }) / (if b >= 0 {
        b
    } else {
        -b
    });
    if (a >= 0) == (b >= 0) {
        m
    } else {
        -m
    }
}

fn trunc_div_exec(a: i64, b: i64) -> (r: i64)
    requires
        -1_000_000_000_000_000 <= a <= 1_000_000_000_000_000,
        b != 0,
        -1_000_000_000_000_000 <= b <= 1_000_000_000_000_000,
    ensures
        r == trunc_div(a as int, b as int),
        (if r >= 0 { r as int } else { -r }) <= (if a >= 0 { a as int } else { -a }),
{
    let aa = if a >= 0 {
        a
    } else {
        -a
    };
    let ab = if b >= 0 {
        b
    } else {
        -b
    };
    let m = ((aa as u64) / (ab as u64)) as i64;
    proof {
        assert(aa as int / (ab as int) <= aa) by (nonlinear_arith)
            requires aa >= 0 && ab >= 1;
        assert(aa as int / (ab as int) >= 0) by (nonlinear_arith)
            requires aa >= 0 && ab >= 1;
    }
    if (a >= 0) == (b >= 0) {
        m
    } else {
        -m
    }
}

/// Intersects a ray with the ground plane: `None` when the ray does not
/// point downward, else the exact intersection point with its height
/// pinned to the plane.
pub fn ray_ground_intersection(ray: Ray, ground_y: i64) -> (r: Option<Pos3>)
    requires
        ray.wf(),
        -100_000_000 <= ground_y <= 100_000_000,
    ensures
        (r is Some) <==> ray.dir_y < 0,
        r is Some ==> r->0 == ground_hit_spec(ray, ground_y as int),
        r is Some ==> {
            let p = r->0;
            &&& -2_200_000_000_000 <= p.x <= 2_200_000_000_000
            &&& -2_200_000_000_000 <= p.z <= 2_200_000_000_000
            &&& p.y == ground_y
        },
{
    if ray.dir_y >= 0 {
        return Option::None;
    }
    let num = ground_y - ray.origin.y;
    proof {
        assert(-2_000_000_000_000 <= ray.dir_x * num <= 2_000_000_000_000
            && -2_000_000_000_000 <= ray.dir_z * num <= 2_000_000_000_000)
            by (nonlinear_arith)
            requires
                -10_000 <= ray.dir_x <= 10_000,
                -10_000 <= ray.dir_z <= 10_000,
                -200_000_000 <= num <= 200_000_000,
        ;
    }
    let qx = trunc_div_exec(ray.dir_x * num, ray.dir_y);
    let qz = trunc_div_exec(ray.dir_z * num, ray.dir_y);
    Option::Some(Pos3 { x: ray.origin.x + qx, y: ground_y, z: ray.origin.z + qz })
}

/// One axis of a point, box centre or box size.
pub open spec fn axis3(x: int, y: int, z: int, i: int) -> int {
    if i == 0 {
        x
    } else if i == 1 {
        y
    } else {
        z
    }
}

/// Picks one of three components.
fn at3(x: i64, y: i64, z: i64, i: usize) -> (r: i64)
    requires
        i < 3,
    ensures
        r == axis3(x as int, y as int, z as int, i as int),
{
    if i == 0 {
        x
    } else if i == 1 {
        y
    } else {
        z
    }
}

/// Per-axis values of the slab test, in doubled coordinates so that the
/// box's half-extents stay integral: for axis `i`, the slab spans
/// `[2c - s, 2c + s]` and the doubled ray is `2o + 2d t`.
pub open spec fn slab_lo(ray: Ray, c: Pos3, sx: int, sy: int, sz: int, i: int) -> int {
    2 * axis3(c.x as int, c.y as int, c.z as int, i) - axis3(sx, sy, sz, i) - 2 * axis3(
        ray.origin.x as int,
        ray.origin.y as int,
        ray.origin.z as int,
        i,
    )
}

pub open spec fn slab_hi(ray: Ray, c: Pos3, sx: int, sy: int, sz: int, i: int) -> int {
    2 * axis3(c.x as int, c.y as int, c.z as int, i) + axis3(sx, sy, sz, i) - 2 * axis3(
        ray.origin.x as int,
        ray.origin.y as int,
        ray.origin.z as int,
        i,
    )
}

pub open spec fn slab_dir(ray: Ray, i: int) -> int {
    axis3(ray.dir_x as int, ray.dir_y as int, ray.dir_z as int, i)
}

/// Entry numerator over a positive denominator `2 |d_i|`.
pub open spec fn slab_num_lo(ray: Ray, c: Pos3, sx: int, sy: int, sz: int, i: int) -> int {
    if slab_dir(ray, i) > 0 {
        slab_lo(ray, c, sx, sy, sz, i)
    } else {
        -slab_hi(ray, c, sx, sy, sz, i)
    }
}

/// Exit numerator over a positive denominator `2 |d_i|`.
pub open spec fn slab_num_hi(ray: Ray, c: Pos3, sx: int, sy: int, sz: int, i: int) -> int {
    if slab_dir(ray, i) > 0 {
        slab_hi(ray, c, sx, sy, sz, i)
    } else {
        -slab_lo(ray, c, sx, sy, sz, i)
    }
}

pub open spec fn slab_den(ray: Ray, i: int) -> int {
    2 * (if slab_dir(ray, i) >= 0 {
        slab_dir(ray, i)
    } else {
        -slab_dir(ray, i)
    })
}

/// The exact slab test: the ray hits the box exactly when, on every axis
/// it runs parallel to, the origin lies inside the slab; every
/// constrained axis is exited at a non-negative time; and every entry
/// time is no later than every exit time.
pub open spec fn box_hit_spec(ray: Ray, c: Pos3, sx: int, sy: int, sz: int) -> bool {
    &&& (forall|i: int|
        0 <= i < 3 && #[trigger] slab_dir(ray, i) == 0 ==> slab_lo(ray, c, sx, sy, sz, i) <= 0
            && 0 <= slab_hi(ray, c, sx, sy, sz, i))
    &&& (forall|i: int|
        0 <= i < 3 && #[trigger] slab_dir(ray, i) != 0 ==> slab_num_hi(ray, c, sx, sy, sz, i)
            >= 0)
    &&& (forall|i: int, j: int|
        #![trigger slab_dir(ray, i), slab_dir(ray, j)]
        0 <= i < 3 && 0 <= j < 3 && slab_dir(ray, i) != 0 && slab_dir(ray, j) != 0
            ==> slab_num_lo(ray, c, sx, sy, sz, i) * slab_den(ray, j) <= slab_num_hi(
            ray,
            c,
            sx,
            sy,
            sz,
            j,
        ) * slab_den(ray, i))
}

/// Intersects a ray with an axis-aligned box given by centre and size.
pub fn ray_box_intersection(ray: Ray, box_center: Pos3, size_x: i64, size_y: i64, size_z: i64) -> (
    r: bool)
    requires
        ray.wf(),
        in_field(box_center),
        0 <= size_x <= 1_000_000,
        0 <= size_y <= 1_000_000,
        0 <= size_z <= 1_000_000,
    ensures
        r == box_hit_spec(ray, box_center, size_x as int, size_y as int, size_z as int),
{
    let mut i: usize = 0;
    while i < 3
        invariant
            i <= 3,
            ray.wf(),
            in_field(box_center),
            0 <= size_x <= 1_000_000 && 0 <= size_y <= 1_000_000 && 0 <= size_z <= 1_000_000,
            forall|k: int|
                0 <= k < i && #[trigger] slab_dir(ray, k) == 0 ==> slab_lo(
                    ray,
                    box_center,
                    size_x as int,
                    size_y as int,
                    size_z as int,
                    k,
                ) <= 0 && 0 <= slab_hi(ray, box_center, size_x as int, size_y as int, size_z as int, k),
            forall|k: int|
                0 <= k < i && #[trigger] slab_dir(ray, k) != 0 ==> slab_num_hi(
                    ray,
                    box_center,
                    size_x as int,
                    size_y as int,
                    size_z as int,
                    k,
                ) >= 0,
        decreases 3 - i,
    {
        let d = at3(ray.dir_x, ray.dir_y, ray.dir_z, i);
        let ci = at3(box_center.x, box_center.y, box_center.z, i);
        let si = at3(size_x, size_y, size_z, i);
        let oi = at3(ray.origin.x, ray.origin.y, ray.origin.z, i);
        let lo = 2 * ci - si - 2 * oi;
        let hi = 2 * ci + si - 2 * oi;
        proof {
            let ii = i as int;
            assert(d == slab_dir(ray, ii)) by {
                if ii == 0 {
                } else if ii == 1 {
                } else {
                }
            }
            assert(lo == slab_lo(ray, box_center, size_x as int, size_y as int, size_z as int, ii)) by {
                if ii == 0 {
                } else if ii == 1 {
                } else {
                }
            }
            assert(hi == slab_hi(ray, box_center, size_x as int, size_y as int, size_z as int, ii)) by {
                if ii == 0 {
                } else if ii == 1 {
                } else {
                }
            }
        }
        if d == 0 {
            if !(lo <= 0 && 0 <= hi) {
                return false;
            }
        } else {
            let nh = if d > 0 {
                hi
            } else {
                -lo
            };
            proof {
                assert(nh == slab_num_hi(ray, box_center, size_x as int, size_y as int, size_z as int, i as int));
            }
            if nh < 0 {
                return false;
            }
        }
        i = i + 1;
    }
    let mut a: usize = 0;
    while a < 3
        invariant
            a <= 3,
            ray.wf(),
            in_field(box_center),
            0 <= size_x <= 1_000_000 && 0 <= size_y <= 1_000_000 && 0 <= size_z <= 1_000_000,
            forall|k: int|
                0 <= k < 3 && #[trigger] slab_dir(ray, k) == 0 ==> slab_lo(
                    ray,
                    box_center,
                    size_x as int,
                    size_y as int,
                    size_z as int,
                    k,
                ) <= 0 && 0 <= slab_hi(ray, box_center, size_x as int, size_y as int, size_z as int, k),
            forall|k: int|
                0 <= k < 3 && #[trigger] slab_dir(ray, k) != 0 ==> slab_num_hi(
                    ray,
                    box_center,
                    size_x as int,
                    size_y as int,
                    size_z as int,
                    k,
                ) >= 0,
            forall|k: int, m: int|
                #![trigger slab_dir(ray, k), slab_dir(ray, m)]
                0 <= k < a && 0 <= m < 3 && slab_dir(ray, k) != 0 && slab_dir(ray, m) != 0
                    ==> slab_num_lo(ray, box_center, size_x as int, size_y as int, size_z as int, k) * slab_den(ray, m)
                    <= slab_num_hi(ray, box_center, size_x as int, size_y as int, size_z as int, m) * slab_den(ray, k),
        decreases 3 - a,
    {
        let da = at3(ray.dir_x, ray.dir_y, ray.dir_z, a);
        if da != 0 {
            let ca = at3(box_center.x, box_center.y, box_center.z, a);
            let sa = at3(size_x, size_y, size_z, a);
            let oa = at3(ray.origin.x, ray.origin.y, ray.origin.z, a);
            let loa = 2 * ca - sa - 2 * oa;
            let hia = 2 * ca + sa - 2 * oa;
            let nla = if da > 0 {
                loa
            } else {
                -hia
            };
            let dena = 2 * (if da >= 0 {
                da
            } else {
                -da
            });
            proof {
                let ii = a as int;
                assert(loa == slab_lo(ray, box_center, size_x as int, size_y as int, size_z as int, ii)) by {
                if ii == 0 {
                } else if ii == 1 {
                } else {
                }
            }
                assert(hia == slab_hi(ray, box_center, size_x as int, size_y as int, size_z as int, ii)) by {
                if ii == 0 {
                } else if ii == 1 {
                } else {
                }
            }
                assert(nla == slab_num_lo(ray, box_center, size_x as int, size_y as int, size_z as int, ii));
                assert(dena == slab_den(ray, ii));
                assert(-1_000_000_000 <= nla <= 1_000_000_000 && 1 <= dena <= 20_000);
            }
            let mut b: usize = 0;
            while b < 3
                invariant
                    b <= 3,
                    a < 3,
                    ray.wf(),
                    in_field(box_center),
                    0 <= size_x <= 1_000_000 && 0 <= size_y <= 1_000_000 && 0 <= size_z
                        <= 1_000_000,
                    da == slab_dir(ray, a as int),
                    da != 0,
                    nla == slab_num_lo(ray, box_center, size_x as int, size_y as int, size_z as int, a as int),
                    dena == slab_den(ray, a as int),
                    forall|m: int|
                        0 <= m < b && #[trigger] slab_dir(ray, m) != 0 ==> slab_num_lo(
                            ray,
                            box_center,
                            size_x as int,
                            size_y as int,
                            size_z as int,
                            a as int,
                        ) * slab_den(ray, m) <= slab_num_hi(
                            ray,
                            box_center,
                            size_x as int,
                            size_y as int,
                            size_z as int,
                            m,
                        ) * slab_den(ray, a as int),
                decreases 3 - b,
            {
                let db = at3(ray.dir_x, ray.dir_y, ray.dir_z, b);
                if db != 0 {
                    let cb = at3(box_center.x, box_center.y, box_center.z, b);
                    let sb = at3(size_x, size_y, size_z, b);
                    let ob2 = at3(ray.origin.x, ray.origin.y, ray.origin.z, b);
                    let lob = 2 * cb - sb - 2 * ob2;
                    let hib = 2 * cb + sb - 2 * ob2;
                    let nhb = if db > 0 {
                        hib
                    } else {
                        -lob
                    };
                    let denb = 2 * (if db >= 0 {
                        db
                    } else {
                        -db
                    });
                    proof {
                        let ii = b as int;
                        assert(lob == slab_lo(ray, box_center, size_x as int, size_y as int, size_z as int, ii)) by {
                        if ii == 0 {
                        } else if ii == 1 {
                        } else {
                        }
                    }
                        assert(hib == slab_hi(ray, box_center, size_x as int, size_y as int, size_z as int, ii)) by {
                        if ii == 0 {
                        } else if ii == 1 {
                        } else {
                        }
                    }
                        assert(nhb == slab_num_hi(ray, box_center, size_x as int, size_y as int, size_z as int, ii));
                        assert(denb == slab_den(ray, ii));
                        assert(-1_000_000_000 <= nla <= 1_000_000_000 && -1_000_000_000 <= nhb
                            <= 1_000_000_000 && 0 <= dena <= 20_000 && 0 <= denb <= 20_000);
                        assert(nla * denb <= 1_000_000_000i64 * 20_000i64 && nla * denb
                            >= (-1_000_000_000i64) * 20_000i64) by (nonlinear_arith)
                            requires -1_000_000_000 <= nla <= 1_000_000_000 && 0 <= denb
                                <= 20_000;
                        assert(nhb * dena <= 1_000_000_000i64 * 20_000i64 && nhb * dena
                            >= (-1_000_000_000i64) * 20_000i64) by (nonlinear_arith)
                            requires -1_000_000_000 <= nhb <= 1_000_000_000 && 0 <= dena
                                <= 20_000;
                    }
                    if nla * denb > nhb * dena {
                        return false;
                    }
                }
                b = b + 1;
            }
        }
        a = a + 1;
    }
    true
}


/// The exact ray-cylinder test, cleared of divisions: with `dd` the squared
/// direction length and `ddot` the dot product of direction and
/// origin-to-centre, the closest point of the ray's carrier line to the
/// cylinder axis is `origin + dir * ddot / dd`; the ray hits when that
/// point lies horizontally within the radius and vertically within the
/// cylinder's span, all scaled by the positive `dd`.
pub open spec fn cylinder_hit_spec(ray: Ray, center: Pos3, radius: int, height: int) -> bool {
    let ddot = (center.x - ray.origin.x) * ray.dir_x + (center.y - ray.origin.y) * ray.dir_y + (
    center.z - ray.origin.z) * ray.dir_z;
    let dd = ray.dir_x * ray.dir_x + ray.dir_y * ray.dir_y + ray.dir_z * ray.dir_z;
    let hx = (center.x - ray.origin.x) * dd - ray.dir_x * ddot;
    let hz = (center.z - ray.origin.z) * dd - ray.dir_z * ddot;
    let yl = ray.origin.y * dd + ray.dir_y * ddot;
    &&& hx * hx + hz * hz <= radius * radius * (dd * dd)
    &&& center.y * dd <= yl <= (center.y + height) * dd
}

/// Intersects a ray with a vertical cylinder: the unit-picking volume.
pub fn ray_intersects_cylinder(ray: Ray, center: Pos3, radius: i64, height: i64) -> (r: bool)
    requires
        ray.wf(),
        in_field(center),
        0 <= radius <= 1_000_000,
        0 <= height <= 100_000_000,
    ensures
        r == cylinder_hit_spec(ray, center, radius as int, height as int),
{
    let tox = center.x - ray.origin.x;
    let toy = center.y - ray.origin.y;
    let toz = center.z - ray.origin.z;
    proof {
        assert(-2_000_000_000_000 <= tox * ray.dir_x <= 2_000_000_000_000 && -2_000_000_000_000
            <= toy * ray.dir_y <= 2_000_000_000_000 && -2_000_000_000_000 <= toz * ray.dir_z
            <= 2_000_000_000_000) by (nonlinear_arith)
            requires
                -200_000_000 <= tox <= 200_000_000,
                -200_000_000 <= toy <= 200_000_000,
                -200_000_000 <= toz <= 200_000_000,
                -10_000 <= ray.dir_x <= 10_000,
                -10_000 <= ray.dir_y <= 10_000,
                -10_000 <= ray.dir_z <= 10_000,
        ;
        assert(0 <= ray.dir_x * ray.dir_x <= 100_000_000 && 0 <= ray.dir_y * ray.dir_y
            <= 100_000_000 && 0 <= ray.dir_z * ray.dir_z <= 100_000_000) by (nonlinear_arith)
            requires
                -10_000 <= ray.dir_x <= 10_000,
                -10_000 <= ray.dir_y <= 10_000,
                -10_000 <= ray.dir_z <= 10_000,
        ;
    }
    let ddot = tox * ray.dir_x + toy * ray.dir_y + toz * ray.dir_z;
    let dd = ray.dir_x * ray.dir_x + ray.dir_y * ray.dir_y + ray.dir_z * ray.dir_z;
    proof {
        assert(-60_000_000_000_000_000 <= tox * dd <= 60_000_000_000_000_000
            && -60_000_000_000_000_000 <= toz * dd <= 60_000_000_000_000_000)
            by (nonlinear_arith)
            requires
                -200_000_000 <= tox <= 200_000_000,
                -200_000_000 <= toz <= 200_000_000,
                0 <= dd <= 300_000_000,
        ;
        assert(-60_000_000_000_000_000 <= ray.dir_x * ddot <= 60_000_000_000_000_000
            && -60_000_000_000_000_000 <= ray.dir_z * ddot <= 60_000_000_000_000_000
            && -60_000_000_000_000_000 <= ray.dir_y * ddot <= 60_000_000_000_000_000)
            by (nonlinear_arith)
            requires
                -10_000 <= ray.dir_x <= 10_000,
                -10_000 <= ray.dir_y <= 10_000,
                -10_000 <= ray.dir_z <= 10_000,
                -6_000_000_000_000 <= ddot <= 6_000_000_000_000,
        ;
        assert(-30_000_000_000_000_000 <= ray.origin.y * dd <= 30_000_000_000_000_000
            && -30_000_000_000_000_000 <= center.y * dd <= 30_000_000_000_000_000)
            by (nonlinear_arith)
            requires
                -100_000_000 <= ray.origin.y <= 100_000_000,
                -100_000_000 <= center.y <= 100_000_000,
                0 <= dd <= 300_000_000,
        ;
        assert(-90_000_000_000_000_000 <= (center.y + height) * dd <= 90_000_000_000_000_000)
            by (nonlinear_arith)
            requires
                -200_000_000 <= center.y + height <= 300_000_000,
                0 <= dd <= 300_000_000,
        ;
    }
    let hx = tox * dd - ray.dir_x * ddot;
    let hz = toz * dd - ray.dir_z * ddot;
    let yl = ray.origin.y * dd + ray.dir_y * ddot;
    proof {
        assert(0 <= hx * hx <= 14_400_000_000_000_000_000_000_000_000_000_000 && 0 <= hz * hz
            <= 14_400_000_000_000_000_000_000_000_000_000_000) by (nonlinear_arith)
            requires
                -120_000_000_000_000_000 <= hx <= 120_000_000_000_000_000,
                -120_000_000_000_000_000 <= hz <= 120_000_000_000_000_000,
        ;
        assert(0 <= radius * radius <= 1_000_000_000_000 && 0 <= dd * dd
            <= 90_000_000_000_000_000) by (nonlinear_arith)
            requires
                0 <= radius <= 1_000_000,
                0 <= dd <= 300_000_000,
        ;
    }
    let hx2 = (hx as i128) * (hx as i128);
    let hz2 = (hz as i128) * (hz as i128);
    let r2 = (radius as i128) * (radius as i128);
    let dd2 = (dd as i128) * (dd as i128);
    proof {
        assert(0 <= r2 * dd2 <= 1_000_000_000_000i128 * 90_000_000_000_000_000i128)
            by (nonlinear_arith)
            requires
                0 <= r2 <= 1_000_000_000_000i128,
                0 <= dd2 <= 90_000_000_000_000_000i128,
        ;
    }
    let horizontal_hit = hx2 + hz2 <= r2 * dd2;
    let vertical_hit = center.y * dd <= yl && yl <= (center.y + height) * dd;
    horizontal_hit && vertical_hit
}

} // verus!
