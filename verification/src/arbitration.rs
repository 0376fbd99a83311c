//! Destination arbitration: before any unit moves, contested grid cells
//! are resolved so that each moving unit walks toward a cell of its own.
//!
//! Units are handled by priority: formation leaders first, then nearest to
//! their target. A unit whose target cell is taken probes a fixed
//! neighbourhood of the target, nearest ring first, and claims the first
//! free cell; if nothing is free it stays on its own current cell.

use vstd::prelude::*;
use crate::grid::{Pos3, Cell, in_field, cell_spec, cell_of, dist_sq_xz, dist_sq_xz_spec};

verus! {

/// Cells reachable by arbitration keep their coordinates within this bound.
pub const MAX_CELL: i64 = 100_000;

/// The cell lies within the playable field's cell range.
pub open spec fn cell_in_range(c: Cell) -> bool {
    -MAX_CELL <= c.cx <= MAX_CELL && -MAX_CELL <= c.cz <= MAX_CELL
}

/// Squared distance between two cells, in cells.
pub open spec fn cdist(a: Cell, b: Cell) -> int {
    (a.cx - b.cx) * (a.cx - b.cx) + (a.cz - b.cz) * (a.cz - b.cz)
}

/// `c` is one of the twenty alternative cells probed around `tgt`: the
/// ring of eight adjacent cells and the second ring of twelve, which is
/// every cell within two steps on each axis except the centre and the
/// four far corners.
pub open spec fn is_alt(tgt: Cell, c: Cell) -> bool {
    let dx = c.cx - tgt.cx;
    let dz = c.cz - tgt.cz;
    &&& -2 <= dx <= 2
    &&& -2 <= dz <= 2
    &&& !(dx == 0 && dz == 0)
    &&& !((dx == 2 || dx == -2) && (dz == 2 || dz == -2))
}

/// The probe order around a target: `a` strictly before `b` when `a` is
/// closer to the target, or as close and closer to the unit's current cell.
pub open spec fn alt_before(tgt: Cell, cur: Cell, a: Cell, b: Cell) -> bool {
    cdist(a, tgt) < cdist(b, tgt) || (cdist(a, tgt) == cdist(b, tgt) && cdist(a, cur) < cdist(
        b,
        cur,
    ))
}

/// Probe-order comparison as a weak order: `a` no later than `b`.
pub open spec fn alt_le(tgt: Cell, cur: Cell, a: Cell, b: Cell) -> bool {
    cdist(a, tgt) < cdist(b, tgt) || (cdist(a, tgt) == cdist(b, tgt) && cdist(a, cur) <= cdist(
        b,
        cur,
    ))
}

/// Computes the squared distance between two in-range cells.
fn cell_dist_sq(a: Cell, b: Cell) -> (r: i64)
    requires
        -MAX_CELL - 2 <= a.cx <= MAX_CELL + 2,
        -MAX_CELL - 2 <= a.cz <= MAX_CELL + 2,
        -MAX_CELL - 2 <= b.cx <= MAX_CELL + 2,
        -MAX_CELL - 2 <= b.cz <= MAX_CELL + 2,
    ensures
        r == cdist(a, b),
        r >= 0,
{
    let dx = a.cx - b.cx;
    let dz = a.cz - b.cz;
    proof {
        assert(dx * dx >= 0 && dz * dz >= 0) by (nonlinear_arith);
        assert(dx * dx <= 300_000i64 * 300_000i64 && dz * dz <= 300_000i64 * 300_000i64)
            by (nonlinear_arith)
            requires -300_000 <= dx <= 300_000 && -300_000 <= dz <= 300_000;
    }
    dx * dx + dz * dz
}

/// Generates the twenty alternative cells around `target`, ordered for
/// probing: by distance to the target first and by distance to the unit's
/// current cell second, so formation cohesion wins and travel distance
/// breaks ties.
pub fn generate_formation_alternatives(target: Cell, current: Cell) -> (r: Vec<Cell>)
    requires
        cell_in_range(target),
        cell_in_range(current),
    ensures
        r@.len() == 20,
        forall|k: int| 0 <= k < 20 ==> is_alt(target, #[trigger] r@[k]),
        forall|k: int, m: int| 0 <= k < m < 20 ==> alt_le(target, current, r@[k], r@[m]),
        forall|k: int, m: int| 0 <= k < 20 && 0 <= m < 20 && k != m ==> r@[k] != r@[m],
        forall|c: Cell| is_alt(target, c) ==> r@.contains(c),
{
    // The first ring of eight neighbouring cells, then the second ring of
    // twelve, as the probe neighbourhood.
    let mut base: Vec<Cell> = Vec::new();
    base.push(Cell { cx: target.cx + (1), cz: target.cz + (0) });
    base.push(Cell { cx: target.cx + (-1), cz: target.cz + (0) });
    base.push(Cell { cx: target.cx + (0), cz: target.cz + (1) });
    base.push(Cell { cx: target.cx + (0), cz: target.cz + (-1) });
    base.push(Cell { cx: target.cx + (1), cz: target.cz + (1) });
    base.push(Cell { cx: target.cx + (-1), cz: target.cz + (1) });
    base.push(Cell { cx: target.cx + (1), cz: target.cz + (-1) });
    base.push(Cell { cx: target.cx + (-1), cz: target.cz + (-1) });
    base.push(Cell { cx: target.cx + (2), cz: target.cz + (0) });
    base.push(Cell { cx: target.cx + (-2), cz: target.cz + (0) });
    base.push(Cell { cx: target.cx + (0), cz: target.cz + (2) });
    base.push(Cell { cx: target.cx + (0), cz: target.cz + (-2) });
    base.push(Cell { cx: target.cx + (2), cz: target.cz + (1) });
    base.push(Cell { cx: target.cx + (1), cz: target.cz + (2) });
    base.push(Cell { cx: target.cx + (-2), cz: target.cz + (1) });
    base.push(Cell { cx: target.cx + (-1), cz: target.cz + (2) });
    base.push(Cell { cx: target.cx + (2), cz: target.cz + (-1) });
    base.push(Cell { cx: target.cx + (1), cz: target.cz + (-2) });
    base.push(Cell { cx: target.cx + (-2), cz: target.cz + (-1) });
    base.push(Cell { cx: target.cx + (-1), cz: target.cz + (-2) });
    proof {
        assert(base@ =~= seq![
            Cell { cx: (target.cx + (1)) as i64, cz: (target.cz + (0)) as i64 },
            Cell { cx: (target.cx + (-1)) as i64, cz: (target.cz + (0)) as i64 },
            Cell { cx: (target.cx + (0)) as i64, cz: (target.cz + (1)) as i64 },
            Cell { cx: (target.cx + (0)) as i64, cz: (target.cz + (-1)) as i64 },
            Cell { cx: (target.cx + (1)) as i64, cz: (target.cz + (1)) as i64 },
            Cell { cx: (target.cx + (-1)) as i64, cz: (target.cz + (1)) as i64 },
            Cell { cx: (target.cx + (1)) as i64, cz: (target.cz + (-1)) as i64 },
            Cell { cx: (target.cx + (-1)) as i64, cz: (target.cz + (-1)) as i64 },
            Cell { cx: (target.cx + (2)) as i64, cz: (target.cz + (0)) as i64 },
            Cell { cx: (target.cx + (-2)) as i64, cz: (target.cz + (0)) as i64 },
            Cell { cx: (target.cx + (0)) as i64, cz: (target.cz + (2)) as i64 },
            Cell { cx: (target.cx + (0)) as i64, cz: (target.cz + (-2)) as i64 },
            Cell { cx: (target.cx + (2)) as i64, cz: (target.cz + (1)) as i64 },
            Cell { cx: (target.cx + (1)) as i64, cz: (target.cz + (2)) as i64 },
            Cell { cx: (target.cx + (-2)) as i64, cz: (target.cz + (1)) as i64 },
            Cell { cx: (target.cx + (-1)) as i64, cz: (target.cz + (2)) as i64 },
            Cell { cx: (target.cx + (2)) as i64, cz: (target.cz + (-1)) as i64 },
            Cell { cx: (target.cx + (1)) as i64, cz: (target.cz + (-2)) as i64 },
            Cell { cx: (target.cx + (-2)) as i64, cz: (target.cz + (-1)) as i64 },
            Cell { cx: (target.cx + (-1)) as i64, cz: (target.cz + (-2)) as i64 }
        ]);
        assert forall|c: Cell| is_alt(target, c) implies base@.contains(c) by {
            let dxc: int = c.cx - target.cx;
            let dzc: int = c.cz - target.cz;
            if dxc == 1 && dzc == 0 {
                assert(base@[0] == c);
            } else if dxc == -1 && dzc == 0 {
                assert(base@[1] == c);
            } else if dxc == 0 && dzc == 1 {
                assert(base@[2] == c);
            } else if dxc == 0 && dzc == -1 {
                assert(base@[3] == c);
            } else if dxc == 1 && dzc == 1 {
                assert(base@[4] == c);
            } else if dxc == -1 && dzc == 1 {
                assert(base@[5] == c);
            } else if dxc == 1 && dzc == -1 {
                assert(base@[6] == c);
            } else if dxc == -1 && dzc == -1 {
                assert(base@[7] == c);
            } else if dxc == 2 && dzc == 0 {
                assert(base@[8] == c);
            } else if dxc == -2 && dzc == 0 {
                assert(base@[9] == c);
            } else if dxc == 0 && dzc == 2 {
                assert(base@[10] == c);
            } else if dxc == 0 && dzc == -2 {
                assert(base@[11] == c);
            } else if dxc == 2 && dzc == 1 {
                assert(base@[12] == c);
            } else if dxc == 1 && dzc == 2 {
                assert(base@[13] == c);
            } else if dxc == -2 && dzc == 1 {
                assert(base@[14] == c);
            } else if dxc == -1 && dzc == 2 {
                assert(base@[15] == c);
            } else if dxc == 2 && dzc == -1 {
                assert(base@[16] == c);
            } else if dxc == 1 && dzc == -2 {
                assert(base@[17] == c);
            } else if dxc == -2 && dzc == -1 {
                assert(base@[18] == c);
            } else if dxc == -1 && dzc == -2 {
                assert(base@[19] == c);
            }
        }
    }

    // Stable insertion into a sorted output pins the probe order.
    let mut out: Vec<Cell> = Vec::new();
    let mut i: usize = 0;
    while i < base.len()
        invariant
            i <= base@.len(),
            base@.len() == 20,
            cell_in_range(target),
            cell_in_range(current),
            out@.len() == i,
            forall|k: int| 0 <= k < base@.len() ==> is_alt(target, #[trigger] base@[k]),
            forall|k: int, m: int|
                0 <= k < base@.len() && 0 <= m < base@.len() && k != m ==> base@[k] != base@[m],
            forall|c: Cell| is_alt(target, c) ==> base@.contains(c),
            forall|k: int| 0 <= k < out@.len() ==> is_alt(target, #[trigger] out@[k]),
            forall|k: int, m: int|
                0 <= k < m < out@.len() ==> alt_le(target, current, out@[k], out@[m]),
            forall|k: int, m: int|
                0 <= k < out@.len() && 0 <= m < out@.len() && k != m ==> out@[k] != out@[m],
            forall|k: int| 0 <= k < i ==> out@.contains(#[trigger] base@[k]),
            forall|k: int| 0 <= k < out@.len() ==> base@.take(i as int).contains(
                #[trigger] out@[k],
            ),
        decreases base@.len() - i,
    {
        let x = base[i];
        let mut m: usize = 0;
        let kx_t = cell_dist_sq(x, target);
        let kx_c = cell_dist_sq(x, current);
        while m < out.len()
            invariant_except_break
                m <= out@.len(),
            invariant
                cell_in_range(target),
                cell_in_range(current),
                out@.len() == i,
                kx_t == cdist(x, target),
                kx_c == cdist(x, current),
                is_alt(target, x),
                forall|k: int| 0 <= k < out@.len() ==> is_alt(target, #[trigger] out@[k]),
                forall|k: int| 0 <= k < m ==> alt_le(target, current, #[trigger] out@[k], x),
            ensures
                m <= out@.len(),
                m < out@.len() ==> alt_before(target, current, x, out@[m as int]),
            decreases out@.len() - m,
        {
            let ko_t = cell_dist_sq(out[m], target);
            if ko_t > kx_t {
                break;
            }
            if ko_t == kx_t {
                let ko_c = cell_dist_sq(out[m], current);
                if ko_c > kx_c {
                    break;
                }
            }
            m = m + 1;
        }
        let ghost preo = out@;
        out.insert(m, x);
        proof {
            assert(out@ =~= preo.insert(m as int, x));
            assert(base@.take(i + 1).drop_last() =~= base@.take(i as int));
            assert(base@.take(i + 1).last() == base@[i as int]);
            assert forall|k: int| 0 <= k < preo.len() implies x != preo[k] by {
                let w = choose|w: int| 0 <= w < i && base@.take(i as int)[w] == preo[k];
                assert(base@[w] == preo[k]);
            }
            assert forall|k: int, m2: int|
                0 <= k < m2 < out@.len() implies alt_le(target, current, out@[k], out@[m2]) by {
                if k < m && m2 == m {
                } else if k == m && m2 > m {
                    assert(alt_before(target, current, x, preo[m as int]));
                    assert(alt_le(target, current, preo[m as int], preo[m2 - 1]) || m2 - 1 == m);
                }
            }
            assert forall|k: int| 0 <= k < i + 1 implies out@.contains(#[trigger] base@[k]) by {
                if k == i {
                    assert(out@[m as int] == base@[i as int]);
                } else {
                    let w = choose|w: int| 0 <= w < preo.len() && preo[w] == base@[k];
                    if w < m {
                        assert(out@[w] == base@[k]);
                    } else {
                        assert(out@[w + 1] == base@[k]);
                    }
                }
            }
            assert forall|k: int| 0 <= k < out@.len() implies base@.take(i + 1).contains(
                #[trigger] out@[k],
            ) by {
                if k == m {
                    assert(base@.take(i + 1)[i as int] == x);
                } else {
                    let orig: int = if k < m {
                        k
                    } else {
                        k - 1
                    };
                    assert(preo[orig] == out@[k]);
                    let w = choose|w: int|
                        0 <= w < i && base@.take(i as int)[w] == preo[orig];
                    assert(base@.take(i + 1)[w] == out@[k]);
                }
            }
        }
        i = i + 1;
    }
    proof {
        assert(base@.take(20) =~= base@);
        assert forall|c: Cell| is_alt(target, c) implies out@.contains(c) by {
            let w = choose|w: int| 0 <= w < base@.len() && base@[w] == c;
            assert(out@.contains(base@[w]));
        }
    }
    out
}



/// Identity on cells, used to steer quantifier instantiation.
pub open spec fn trig_cell(c: Cell) -> Cell {
    c
}

proof fn lemma_all_marked(s: Seq<bool>)
    requires
        forall|k: int| 0 <= k < s.len() ==> s[k],
    ensures
        cnt_marked(s) == s.len(),
    decreases s.len(),
{
    if s.len() > 0 {
        assert(forall|k: int| 0 <= k < s.len() - 1 ==> (#[trigger] s.drop_last()[k]) == s[k]);
        lemma_all_marked(s.drop_last());
    }
}

/// The cell of any point in the field lies in the arbitration range.
pub proof fn lemma_cell_of_in_range(p: Pos3)
    requires
        in_field(p),
    ensures
        cell_in_range(cell_spec(p)),
{
    crate::grid::lemma_snap1_range(p.x as int);
    crate::grid::lemma_snap1_range(p.z as int);
}

proof fn lemma_claim_step(
    rb: Seq<Assigned>,
    occ: Seq<Cell>,
    cb: Seq<Cell>,
    b: int,
    cell: Cell,
)
    requires
        0 <= b < rb.len(),
        !rb[b].claimed,
        forall|c: Cell| #[trigger] cb.contains(c) <==> (occ.contains(c) || exists|k: int|
            0 <= k < rb.len() && (#[trigger] rb[k]).claimed && rb[k].cell == c),
        !cb.contains(cell),
    ensures
        !occ.contains(cell),
        forall|k: int| 0 <= k < rb.len() && (#[trigger] rb[k]).claimed ==> rb[k].cell != cell,
        forall|c: Cell| #[trigger] cb.push(cell).contains(c) <==> (occ.contains(c) || exists|
            k: int,
        |
            0 <= k < rb.len() && (#[trigger] rb.update(
                b,
                Assigned { cell, claimed: true },
            )[k]).claimed && rb.update(b, Assigned { cell, claimed: true })[k].cell == c),
        forall|j: int, c: Cell| #[trigger] taken_for(rb, occ, j, c) ==> taken_for(
            rb.update(b, Assigned { cell, claimed: true }),
            occ,
            j,
            c,
        ),
{
    let rn = rb.update(b, Assigned { cell, claimed: true });
    assert forall|c: Cell| #[trigger] cb.push(cell).contains(c) implies (occ.contains(c)
        || exists|k: int| 0 <= k < rn.len() && (#[trigger] rn[k]).claimed && rn[k].cell
        == c) by {
        if c == cell {
            assert(rn[b].claimed && rn[b].cell == c);
        } else {
            let w = choose|w: int| 0 <= w < cb.push(cell).len() && cb.push(cell)[w] == c;
            assert(cb[w] == c);
            assert(cb.contains(c));
            if !occ.contains(c) {
                let k = choose|k: int|
                    0 <= k < rb.len() && (#[trigger] rb[k]).claimed && rb[k].cell == c;
                assert(rn[k].claimed && rn[k].cell == c);
            }
        }
    }
    assert forall|c: Cell| (occ.contains(c) || exists|k: int|
        0 <= k < rn.len() && (#[trigger] rn[k]).claimed && rn[k].cell == c) implies
        #[trigger] cb.push(cell).contains(c) by {
        if occ.contains(c) {
            assert(cb.contains(c));
            let w = choose|w: int| 0 <= w < cb.len() && cb[w] == c;
            assert(cb.push(cell)[w] == c);
        } else {
            let k = choose|k: int| 0 <= k < rn.len() && (#[trigger] rn[k]).claimed && rn[k].cell
                == c;
            if k == b {
                assert(cb.push(cell)[cb.len() as int] == c);
            } else {
                assert(rb[k].claimed && rb[k].cell == c);
                assert(cb.contains(c));
                let w = choose|w: int| 0 <= w < cb.len() && cb[w] == c;
                assert(cb.push(cell)[w] == c);
            }
        }
    }
    assert forall|j: int, c: Cell| #[trigger] taken_for(rb, occ, j, c) implies taken_for(
        rn,
        occ,
        j,
        c,
    ) by {
        if !occ.contains(c) {
            let k = choose|k: int|
                0 <= k < rb.len() && k != j && (#[trigger] rb[k]).claimed && rb[k].cell == c;
            assert(rn[k].claimed && rn[k].cell == c);
        }
    }
}

/// One moving unit's arbitration request: where it stands, where it wants
/// to go, and whether it leads the formation.
#[derive(Clone, Copy, PartialEq, Eq, Structural, Debug)]
pub struct MoveRequest {
    pub pos: Pos3,
    pub target: Pos3,
    pub primary: bool,
}

/// One unit's arbitrated destination. `claimed` records that the cell was
/// newly claimed for this unit; without a claim the unit keeps its own
/// current cell and stays put this tick.
#[derive(Clone, Copy, PartialEq, Eq, Structural, Debug)]
pub struct Assigned {
    pub cell: Cell,
    pub claimed: bool,
}

/// A request's positions lie inside the playable field.
pub open spec fn req_wf(q: MoveRequest) -> bool {
    in_field(q.pos) && in_field(q.target)
}

/// The grid cell a request's target resolves to.
pub open spec fn tcell(q: MoveRequest) -> Cell {
    cell_spec(q.target)
}

/// The grid cell a request's current position resolves to.
pub open spec fn ccell(q: MoveRequest) -> Cell {
    cell_spec(q.pos)
}

/// Strict arbitration priority: formation leaders outrank everyone, and
/// within a rank the unit nearer its target goes first.
pub open spec fn higher_priority(a: MoveRequest, b: MoveRequest) -> bool {
    (a.primary && !b.primary) || (a.primary == b.primary && dist_sq_xz_spec(a.pos, a.target)
        < dist_sq_xz_spec(b.pos, b.target))
}

/// From unit `j`'s point of view the cell is taken: a stationary unit
/// occupies it or another moving unit claimed it.
pub open spec fn taken_for(res: Seq<Assigned>, occ: Seq<Cell>, j: int, c: Cell) -> bool {
    occ.contains(c) || exists|k: int|
        0 <= k < res.len() && k != j && (#[trigger] res[k]).claimed && res[k].cell == c
}

/// Number of `true` entries.
pub open spec fn cnt_marked(s: Seq<bool>) -> int
    decreases s.len(),
{
    if s.len() == 0 {
        0
    } else {
        cnt_marked(s.drop_last()) + if s.last() {
            1int
        } else {
            0int
        }
    }
}

proof fn lemma_cnt_marked_update(s: Seq<bool>, i: int)
    requires
        0 <= i < s.len(),
        !s[i],
    ensures
        cnt_marked(s.update(i, true)) == cnt_marked(s) + 1,
        cnt_marked(s) <= s.len() - 1,
    decreases s.len(),
{
    lemma_cnt_marked_le(s);
    if i == s.len() - 1 {
        assert(s.update(i, true).drop_last() =~= s.drop_last());
        lemma_cnt_marked_le(s.drop_last());
    } else {
        assert(s.update(i, true).drop_last() =~= s.drop_last().update(i, true));
        assert(s.update(i, true).last() == s.last());
        lemma_cnt_marked_update(s.drop_last(), i);
    }
}

proof fn lemma_cnt_marked_le(s: Seq<bool>)
    ensures
        cnt_marked(s) <= s.len(),
        cnt_marked(s) >= 0,
        cnt_marked(s) < s.len() ==> exists|k: int| 0 <= k < s.len() && !s[k],
    decreases s.len(),
{
    if s.len() > 0 {
        lemma_cnt_marked_le(s.drop_last());
        if cnt_marked(s) < s.len() {
            if !s.last() {
                assert(!s[s.len() - 1]);
            } else {
                let k = choose|k: int| 0 <= k < s.len() - 1 && !s.drop_last()[k];
                assert(!s[k]);
            }
        }
    }
}

/// Looks a cell up in a list.
fn contains_cell(v: &Vec<Cell>, c: Cell) -> (r: bool)
    ensures
        r == v@.contains(c),
{
    let mut i: usize = 0;
    while i < v.len()
        invariant
            i <= v@.len(),
            forall|k: int| 0 <= k < i ==> v@[k] != c,
        decreases v@.len() - i,
    {
        if v[i].cx == c.cx && v[i].cz == c.cz {
            proof {
                assert(v@[i as int] == c);
            }
            return true;
        }
        i = i + 1;
    }
    false
}

/// Compares two requests' arbitration priority.
fn is_higher_priority(a: &MoveRequest, b: &MoveRequest) -> (r: bool)
    requires
        req_wf(*a),
        req_wf(*b),
    ensures
        r == higher_priority(*a, *b),
{
    if a.primary && !b.primary {
        return true;
    }
    if a.primary != b.primary {
        return false;
    }
    let da = dist_sq_xz(a.pos, a.target);
    let db = dist_sq_xz(b.pos, b.target);
    da < db
}

/// Everything arbitration guarantees of its result, over the requests
/// and the stationary cells: conflict-freedom, the exact greedy choice
/// per unit, and that a unit denied its target cell never outranks
/// whoever claimed that cell.
pub open spec fn arb_result_ok(reqs: Seq<MoveRequest>, occ: Seq<Cell>, r: Seq<Assigned>) -> bool {
    &&& (r.len() == reqs.len())
    &&& (forall|j: int| 0 <= j < r.len() && !(#[trigger] r[j]).claimed ==> r[j].cell == ccell(
            reqs[j],
        ))
    &&& (forall|j: int| 0 <= j < r.len() && (#[trigger] r[j]).claimed ==> !occ.contains(
            r[j].cell,
        ))
    &&& (forall|j: int, k: int|
            0 <= j < r.len() && 0 <= k < r.len() && j != k && (#[trigger] r[j]).claimed && (
            #[trigger] r[k]).claimed ==> r[j].cell != r[k].cell)
    &&& (forall|j: int| 0 <= j < r.len() && (#[trigger] r[j]).claimed ==> (r[j].cell == tcell(
            reqs[j],
        ) || is_alt(tcell(reqs[j]), r[j].cell)))
    &&& (forall|j: int| 0 <= j < r.len() && (#[trigger] r[j]).claimed && r[j].cell != tcell(
            reqs[j],
        ) ==> taken_for(r, occ, j, tcell(reqs[j])))
    &&& (forall|j: int, c: Cell|
            0 <= j < r.len() && (#[trigger] r[j]).claimed && r[j].cell != tcell(reqs[j])
                && is_alt(tcell(reqs[j]), c) && alt_before(
                tcell(reqs[j]),
                ccell(reqs[j]),
                c,
                r[j].cell,
            ) ==> taken_for(r, occ, j, #[trigger] trig_cell(c)))
    &&& (forall|j: int| 0 <= j < r.len() && !(#[trigger] r[j]).claimed ==> taken_for(
            r,
            occ,
            j,
            tcell(reqs[j]),
        ))
    &&& (forall|j: int, c: Cell|
            0 <= j < r.len() && !(#[trigger] r[j]).claimed && is_alt(tcell(reqs[j]), c)
                ==> taken_for(r, occ, j, #[trigger] trig_cell(c)))
    &&& (forall|j: int, k: int|
        0 <= j < r.len() && 0 <= k < r.len() && j != k && (#[trigger] r[k]).claimed
            && r[k].cell == tcell(reqs[j]) && !((#[trigger] r[j]).claimed && r[j].cell == tcell(
            reqs[j],
        )) ==> !higher_priority(reqs[j], reqs[k]))
}

/// Assigns every moving unit a conflict-free final grid cell before any
/// unit moves: formation leaders first, then nearest-to-target first, each
/// unit claiming its target cell when free, else the first free probe cell
/// around the target, else keeping its own current cell.
///
/// The `ensures` state conflict-freedom — claimed cells are pairwise
/// distinct and avoid every stationary cell — and that a claim is exact:
/// the target itself, or an alternative no better than which every probe
/// cell was already taken; a unit keeps its own cell only when target and
/// every alternative were taken. A unit that was denied its own target
/// cell never outranks the unit that won that cell.
pub fn arbitrate(requests: &Vec<MoveRequest>, occupied: &Vec<Cell>) -> (r: Vec<Assigned>)
    requires
        forall|j: int| 0 <= j < requests@.len() ==> req_wf(#[trigger] requests@[j]),
    ensures
        arb_result_ok(requests@, occupied@, r@),
{
    let n = requests.len();
    let mut res: Vec<Assigned> = Vec::new();
    let mut done: Vec<bool> = Vec::new();
    let mut i: usize = 0;
    while i < n
        invariant
            i <= n,
            n == requests@.len(),
            res@.len() == i,
            done@.len() == i,
            forall|j: int| 0 <= j < n ==> req_wf(#[trigger] requests@[j]),
            forall|j: int| 0 <= j < i ==> (#[trigger] res@[j]) == (Assigned {
                cell: ccell(requests@[j]),
                claimed: false,
            }),
            forall|j: int| 0 <= j < i ==> !(#[trigger] done@[j]),
            cnt_marked(done@) == 0,
        decreases n - i,
    {
        let own = cell_of(requests[i].pos);
        let ghost pd = done@;
        res.push(Assigned { cell: own, claimed: false });
        done.push(false);
        proof {
            assert(done@.drop_last() =~= pd);
        }
        i = i + 1;
    }

    let mut claimed_cells: Vec<Cell> = Vec::new();
    let mut oi: usize = 0;
    while oi < occupied.len()
        invariant
            oi <= occupied@.len(),
            claimed_cells@ =~= occupied@.take(oi as int),
        decreases occupied@.len() - oi,
    {
        claimed_cells.push(occupied[oi]);
        proof {
            assert(claimed_cells@ =~= occupied@.take(oi + 1));
        }
        oi = oi + 1;
    }
    proof {
        assert(claimed_cells@ =~= occupied@);
    }

    let mut round: usize = 0;
    while round < n
        invariant
            round <= n,
            n == requests@.len(),
            res@.len() == n,
            done@.len() == n,
            cnt_marked(done@) == round,
            forall|j: int| 0 <= j < n ==> req_wf(#[trigger] requests@[j]),
            // Undone units still hold their default: own cell, unclaimed.
            forall|j: int| 0 <= j < n && !(#[trigger] done@[j]) ==> res@[j] == (Assigned {
                cell: ccell(requests@[j]),
                claimed: false,
            }),
            // The claim list holds the stationary cells and exactly the claims.
            forall|c: Cell| #[trigger] claimed_cells@.contains(c) <==> (occupied@.contains(c)
                || exists|k: int|
                0 <= k < n && (#[trigger] res@[k]).claimed && res@[k].cell == c),
            // Done units satisfy the final contract over the current state.
            forall|j: int| 0 <= j < n && !(#[trigger] res@[j]).claimed ==> res@[j].cell == ccell(
                requests@[j],
            ),
            forall|j: int| 0 <= j < n && (#[trigger] res@[j]).claimed ==> done@[j]
                && !occupied@.contains(res@[j].cell),
            forall|j: int, k: int|
                0 <= j < n && 0 <= k < n && j != k && (#[trigger] res@[j]).claimed && (
                #[trigger] res@[k]).claimed ==> res@[j].cell != res@[k].cell,
            forall|j: int| 0 <= j < n && (#[trigger] res@[j]).claimed ==> (res@[j].cell == tcell(
                requests@[j],
            ) || is_alt(tcell(requests@[j]), res@[j].cell)),
            forall|j: int| 0 <= j < n && (#[trigger] res@[j]).claimed && res@[j].cell != tcell(
                requests@[j],
            ) ==> taken_for(res@, occupied@, j, tcell(requests@[j])),
            forall|j: int, c: Cell|
                0 <= j < n && (#[trigger] res@[j]).claimed && res@[j].cell != tcell(requests@[j])
                    && is_alt(tcell(requests@[j]), c) && alt_before(
                    tcell(requests@[j]),
                    ccell(requests@[j]),
                    c,
                    res@[j].cell,
                ) ==> taken_for(res@, occupied@, j, #[trigger] trig_cell(c)),
            forall|j: int| 0 <= j < n && (#[trigger] done@[j]) && !res@[j].claimed ==> taken_for(
                res@,
                occupied@,
                j,
                tcell(requests@[j]),
            ),
            forall|j: int, c: Cell|
                0 <= j < n && (#[trigger] done@[j]) && !res@[j].claimed && is_alt(
                    tcell(requests@[j]),
                    c,
                ) ==> taken_for(res@, occupied@, j, #[trigger] trig_cell(c)),
            // Selection order: nothing undone outranks anything done.
            forall|j: int, k: int|
                0 <= j < n && 0 <= k < n && !(#[trigger] done@[j]) && (#[trigger] done@[k])
                    ==> !higher_priority(requests@[j], requests@[k]),
            // A unit denied its target never outranks whoever claimed it.
            forall|j: int, k: int|
                0 <= j < n && 0 <= k < n && j != k && (#[trigger] done@[j]) && (
                #[trigger] res@[k]).claimed && res@[k].cell == tcell(requests@[j]) && !(
                res@[j].claimed && res@[j].cell == tcell(requests@[j]))
                    ==> !higher_priority(requests@[j], requests@[k]),
        decreases n - round,
    {
        // Select the highest-priority unprocessed request, earliest first.
        let mut best: usize = n;
        let mut mi: usize = 0;
        while mi < n
            invariant
                mi <= n,
                n == requests@.len(),
                done@.len() == n,
                forall|j: int| 0 <= j < n ==> req_wf(#[trigger] requests@[j]),
                best == n || (best < mi && !done@[best as int]),
                best == n ==> forall|j: int| 0 <= j < mi ==> done@[j],
                best < n ==> forall|j: int|
                    0 <= j < mi && !(#[trigger] done@[j]) ==> !higher_priority(
                        requests@[j],
                        requests@[best as int],
                    ),
            decreases n - mi,
        {
            if !done[mi] {
                if best == n {
                    best = mi;
                } else if is_higher_priority(&requests[mi], &requests[best]) {
                    best = mi;
                }
            }
            mi = mi + 1;
        }
        proof {
            lemma_cnt_marked_le(done@);
            if best == n {
                lemma_all_marked(done@);
                assert(false);
            }
        }
        let b = best;
        let q = requests[b];
        let target_cell = cell_of(q.target);
        let current_cell = cell_of(q.pos);
        let ghost rb = res@;
        let ghost db = done@;
        let ghost cb = claimed_cells@;

        let mut new_claim: bool = false;
        let mut new_cell: Cell = target_cell;
        let free_target = !contains_cell(&claimed_cells, target_cell);
        if free_target {
            // The target cell is free: claim it.
            new_claim = true;
        } else {
            // Probe the alternatives around the target in order.
            proof {
                lemma_cell_of_in_range(q.target);
                lemma_cell_of_in_range(q.pos);
            }
            let alts = generate_formation_alternatives(target_cell, current_cell);
            let mut ai: usize = 0;
            let mut found: bool = false;
            while ai < alts.len()
                invariant_except_break
                    found == false,
                invariant
                    ai <= alts@.len(),
                    alts@.len() == 20,
                    forall|k: int| 0 <= k < 20 ==> is_alt(target_cell, #[trigger] alts@[k]),
                    forall|k: int, m: int|
                        0 <= k < m < 20 ==> alt_le(target_cell, current_cell, alts@[k], alts@[m]),
                    forall|c: Cell| is_alt(target_cell, c) ==> alts@.contains(c),
                    forall|k: int| 0 <= k < ai ==> claimed_cells@.contains(#[trigger] alts@[k]),
                ensures
                    found ==> ai < alts@.len() && !claimed_cells@.contains(alts@[ai as int])
                        && (forall|k: int|
                        0 <= k < ai ==> claimed_cells@.contains(#[trigger] alts@[k])),
                    !found ==> forall|k: int|
                        0 <= k < 20 ==> claimed_cells@.contains(#[trigger] alts@[k]),
                decreases alts@.len() - ai,
            {
                if !contains_cell(&claimed_cells, alts[ai]) {
                    found = true;
                    break;
                }
                ai = ai + 1;
            }
            if found {
                new_claim = true;
                new_cell = alts[ai];
                proof {
                    // Every probe cell strictly before the chosen one, and
                    // every probe cell at all when nothing was free, was
                    // already on the claim list.
                    assert forall|c: Cell|
                        is_alt(target_cell, c) && alt_before(
                            target_cell,
                            current_cell,
                            c,
                            new_cell,
                        ) implies cb.contains(#[trigger] trig_cell(c)) by {
                        let w = choose|w: int| 0 <= w < 20 && alts@[w] == c;
                        if w > ai {
                            assert(alt_le(target_cell, current_cell, alts@[ai as int], alts@[w]));
                            assert(false);
                        } else if w == ai {
                            assert(false);
                        }
                        assert(cb.contains(c));
                    }
                }
            } else {
                proof {
                    assert forall|c: Cell| is_alt(target_cell, c) implies cb.contains(
                        #[trigger] trig_cell(c),
                    ) by {
                        let w = choose|w: int| 0 <= w < 20 && alts@[w] == c;
                        assert(cb.contains(alts@[w]));
                    }
                }
            }
            // With nothing free the unit keeps its own current cell,
            // holding it without a claim.
        }
        if new_claim {
            claimed_cells.push(new_cell);
            let slot = &mut res[b];
            *slot = Assigned { cell: new_cell, claimed: true };
            proof {
                lemma_claim_step(rb, occupied@, cb, b as int, new_cell);
            }
        }
        let done_slot = &mut done[b];
        *done_slot = true;
        proof {
            lemma_cnt_marked_update(db, b as int);
            assert(done@ =~= db.update(b as int, true));
            let bb = b as int;
            let nv = Assigned { cell: new_cell, claimed: true };
            if new_claim {
                assert(res@ =~= rb.update(bb, nv));
            } else {
                assert(res@ =~= rb);
            }
            // A cell on the old claim list is taken from anyone's view,
            // except through a witness equal to the viewer itself.
            assert forall|j: int, c: Cell|
                0 <= j < n && cb.contains(trig_cell(c)) && (rb[j].claimed
                    ==> rb[j].cell != c) implies #[trigger] taken_for(res@, occupied@, j, c) by {
                if !occupied@.contains(c) {
                    let k = choose|k: int|
                        0 <= k < rb.len() && (#[trigger] rb[k]).claimed && rb[k].cell == c;
                    assert(k != j);
                    assert(k != bb);
                    assert(res@[k].claimed && res@[k].cell == c);
                }
            }
            // Taken cells stay taken when a fresh claim is added.
            assert forall|j: int, c: Cell| #[trigger] taken_for(rb, occupied@, j, c) implies
                taken_for(res@, occupied@, j, c) by {
                if !occupied@.contains(c) {
                    let k = choose|k: int|
                        0 <= k < rb.len() && k != j && (#[trigger] rb[k]).claimed && rb[k].cell
                            == c;
                    assert(res@[k].claimed && res@[k].cell == c);
                }
            }
            // The taken-for clauses, one by one.
            assert forall|j: int|
                0 <= j < n && (#[trigger] res@[j]).claimed && res@[j].cell != tcell(requests@[j])
                    implies taken_for(res@, occupied@, j, tcell(requests@[j])) by {
                if j == bb {
                    assert(cb.contains(trig_cell(target_cell)));
                } else {
                    assert(rb[j] == res@[j]);
                    assert(taken_for(rb, occupied@, j, tcell(requests@[j])));
                }
            }
            assert forall|j: int, c: Cell|
                0 <= j < n && (#[trigger] res@[j]).claimed && res@[j].cell != tcell(requests@[j])
                    && is_alt(tcell(requests@[j]), c) && alt_before(
                    tcell(requests@[j]),
                    ccell(requests@[j]),
                    c,
                    res@[j].cell,
                ) implies taken_for(res@, occupied@, j, #[trigger] trig_cell(c)) by {
                if j == bb {
                    assert(cb.contains(trig_cell(c)));
                } else {
                    assert(rb[j] == res@[j]);
                    assert(taken_for(rb, occupied@, j, trig_cell(c)));
                }
            }
            assert forall|j: int|
                0 <= j < n && (#[trigger] done@[j]) && !res@[j].claimed implies taken_for(
                res@,
                occupied@,
                j,
                tcell(requests@[j]),
            ) by {
                if j == bb {
                    assert(!new_claim && !free_target);
                    assert(cb.contains(trig_cell(target_cell)));
                } else {
                    assert(db[j] && rb[j] == res@[j]);
                    assert(taken_for(rb, occupied@, j, tcell(requests@[j])));
                }
            }
            assert forall|j: int, c: Cell|
                0 <= j < n && (#[trigger] done@[j]) && !res@[j].claimed && is_alt(
                    tcell(requests@[j]),
                    c,
                ) implies taken_for(res@, occupied@, j, #[trigger] trig_cell(c)) by {
                if j == bb {
                    assert(!new_claim && !free_target);
                    assert(cb.contains(trig_cell(c)));
                } else {
                    assert(db[j] && rb[j] == res@[j]);
                    assert(taken_for(rb, occupied@, j, trig_cell(c)));
                }
            }
            // Selection order: nothing undone outranks anything done.
            assert forall|j: int, k: int|
                0 <= j < n && 0 <= k < n && !(#[trigger] done@[j]) && (#[trigger] done@[k])
                    implies !higher_priority(requests@[j], requests@[k]) by {
                assert(!db[j]);
                if k != bb {
                    assert(db[k]);
                }
            }
            // Priority: a unit denied its target never outranks whoever
            // claimed it.
            assert forall|j: int, k: int|
                0 <= j < n && 0 <= k < n && j != k && (#[trigger] done@[j]) && (
                #[trigger] res@[k]).claimed && res@[k].cell == tcell(requests@[j]) && !(
                res@[j].claimed && res@[j].cell == tcell(requests@[j]))
                    implies !higher_priority(requests@[j], requests@[k]) by {
                if k == bb {
                    assert(new_claim);
                    assert(res@[bb].cell == new_cell);
                    if db[j] {
                        // The settled unit was denied its target cell, so it
                        // saw that cell taken; yet this claim found the same
                        // cell free: impossible.
                        assert(rb[j] == res@[j]);
                        assert(taken_for(rb, occupied@, j, tcell(requests@[j])));
                        if !occupied@.contains(new_cell) {
                            let w = choose|w: int|
                                0 <= w < rb.len() && w != j && (#[trigger] rb[w]).claimed
                                    && rb[w].cell == tcell(requests@[j]);
                            assert(cb.contains(new_cell));
                        }
                        assert(cb.contains(new_cell));
                        assert(false);
                    }
                } else if j == bb {
                    assert(db[k]);
                    assert(!db[bb]);
                } else {
                    assert(db[j] && rb[k] == res@[k] && rb[j] == res@[j]);
                }
            }
        }
        round = round + 1;
    }
    proof {
        assert forall|k: int| 0 <= k < n implies done@[k] by {
            if !done@[k] {
                lemma_cnt_marked_update(done@, k);
            }
        }
        assert forall|j: int|
            0 <= j < n && !(#[trigger] res@[j]).claimed implies taken_for(
            res@,
            occupied@,
            j,
            tcell(requests@[j]),
        ) by {
            assert(done@[j]);
        }
        assert forall|j: int, c: Cell|
            0 <= j < n && !(#[trigger] res@[j]).claimed && is_alt(tcell(requests@[j]), c)
                implies taken_for(res@, occupied@, j, #[trigger] trig_cell(c)) by {
            assert(done@[j]);
        }
        assert forall|j: int, k: int|
            0 <= j < n && 0 <= k < n && j != k && (#[trigger] res@[k]).claimed && res@[k].cell
                == tcell(requests@[j]) && !((#[trigger] res@[j]).claimed && res@[j].cell == tcell(
                requests@[j],
            )) implies !higher_priority(requests@[j], requests@[k]) by {
            assert(done@[j]);
        }
    }
    res
}

} // verus!
