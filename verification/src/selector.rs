//! Greedy non-overlap selection under tiered budgets.
//!
//! Candidates are visited in three caller-supplied orders (priority first,
//! then a "locked" order, then the rest), sharing one accepted set and one
//! spatial index.  A candidate is accepted only if no already-accepted point
//! in the 3-by-3 neighborhood of its grid cell lies within the minimum
//! squared separation; earlier entries in an order always win ties.  The
//! neighborhood check is an intentional approximation: a global minimum
//! separation follows only when the cell size is at least the separation
//! distance.

use vstd::prelude::*;

use crate::geometry::all_in_coord_range;
use crate::geometry::in_coord_range;

verus! {

/// Floor of `x / d` for a positive divisor, exact on the bounded pixel range.
fn floor_div(x: i64, d: i64) -> (q: i64)
    requires
        1 <= d,
        in_coord_range(x as int),
    ensures
        q == x as int / d as int,
        in_coord_range(q as int),
{
    if x >= 0 {
        let qu = (x as u64) / (d as u64);
        proof {
            vstd::arithmetic::div_mod::lemma_div_is_ordered(0, x as int, d as int);
            vstd::arithmetic::div_mod::lemma_div_is_ordered_by_denominator(x as int, 1, d as int);
        }
        qu as i64
    } else {
        let m = (-x) as u64;
        let du = d as u64;
        let qm = (m + du - 1) / du;
        proof {
            let mi = m as int;
            let di = d as int;
            let qi = qm as int;
            assert(mi == -(x as int));
            let rp = (mi + di - 1) % di;
            vstd::arithmetic::div_mod::lemma_fundamental_div_mod(mi + di - 1, di);
            assert(mi + di - 1 == di * qi + rp);
            assert(x as int == (-qi) * di + (di - 1 - rp)) by (nonlinear_arith)
                requires
                    mi + di - 1 == di * qi + rp,
                    mi == -(x as int),
            ;
            vstd::arithmetic::div_mod::lemma_fundamental_div_mod_converse(
                x as int,
                di,
                -qi,
                di - 1 - rp,
            );
            assert(mi + di - 1 <= mi * di) by (nonlinear_arith)
                requires
                    mi >= 1,
                    di >= 1,
            ;
            vstd::arithmetic::div_mod::lemma_div_is_ordered(mi + di - 1, mi * di, di);
            vstd::arithmetic::div_mod::lemma_div_multiples_vanish(mi, di);
        }
        -(qm as i64)
    }
}

/// One accepted point, with its grid cell.
#[derive(Clone, Copy)]
pub struct GridEntry {
    pub x: i64,
    pub y: i64,
    pub cx: i64,
    pub cy: i64,
}

/// A uniform grid index over the points accepted so far.  It answers one
/// question: does any stored point whose cell is in the 3-by-3 neighborhood
/// of a given cell lie strictly within the minimum squared separation?
pub struct SpatialGrid {
    pub cell_size: i64,
    pub entries: Vec<GridEntry>,
}

pub open spec fn entry_wf(e: GridEntry, size: int) -> bool {
    &&& in_coord_range(e.x as int)
    &&& in_coord_range(e.y as int)
    &&& e.cx == e.x as int / size
    &&& e.cy == e.y as int / size
}

/// The stored entry is in the 3-by-3 cell neighborhood of `(cx, cy)` and
/// strictly closer than `min_sep` (squared) to `(x, y)`.
pub open spec fn near_entry(e: GridEntry, x: int, y: int, cx: int, cy: int, min_sep: int) -> bool {
    &&& -1 <= e.cx - cx <= 1
    &&& -1 <= e.cy - cy <= 1
    &&& (x - e.x) * (x - e.x) + (y - e.y) * (y - e.y) < min_sep
}

impl SpatialGrid {
    pub open spec fn wf(self) -> bool {
        &&& 1 <= self.cell_size
        &&& forall|k: int|
            0 <= k < self.entries@.len() ==> entry_wf(#[trigger] self.entries@[k],
            self.cell_size as int)
    }

    pub fn new(cell_size: i64) -> (g: Self)
        requires
            1 <= cell_size,
        ensures
            g.wf(),
            g.cell_size == cell_size,
            g.entries@.len() == 0,
    {
        SpatialGrid { cell_size, entries: Vec::new() }
    }

    /// The grid cell that holds coordinate `c` along one axis.
    pub fn cell_of(&self, c: i64) -> (r: i64)
        requires
            self.wf(),
            in_coord_range(c as int),
        ensures
            r == c as int / self.cell_size as int,
            in_coord_range(r as int),
    {
        floor_div(c, self.cell_size)
    }

    /// Scan the accepted points for one in the 3-by-3 neighborhood of
    /// `(cx, cy)` that is strictly within the separation of `(x, y)`.
    pub fn has_neighbor_within(&self, x: i64, y: i64, cx: i64, cy: i64, min_sep_sq: u64) -> (r:
        bool)
        requires
            self.wf(),
            in_coord_range(x as int),
            in_coord_range(y as int),
            in_coord_range(cx as int),
            in_coord_range(cy as int),
        ensures
            r == exists|k: int|
                0 <= k < self.entries@.len() && near_entry(#[trigger] self.entries@[k], x as int,
                y as int, cx as int, cy as int, min_sep_sq as int),
    {
        let mut k: usize = 0;
        let len = self.entries.len();
        #[verifier::loop_isolation(false)]
        while k < len
            invariant
                k <= len,
                forall|m: int|
                    0 <= m < k ==> !near_entry(#[trigger] self.entries@[m], x as int, y as int,
                    cx as int, cy as int, min_sep_sq as int),
            decreases len - k,
        {
            let e = self.entries[k];
            let adj_x = e.cx >= cx - 1 && e.cx <= cx + 1;
            let adj_y = e.cy >= cy - 1 && e.cy <= cy + 1;
            if adj_x && adj_y {
                let dx: i128 = x as i128 - e.x as i128;
                let dy: i128 = y as i128 - e.y as i128;
                proof {
                    crate::geometry::lemma_mul_bound(dx as int, dx as int, 0x8000_0000);
                    crate::geometry::lemma_mul_bound(dy as int, dy as int, 0x8000_0000);
                }
                let d2: i128 = dx * dx + dy * dy;
                if d2 < min_sep_sq as i128 {
                    proof {
                        assert(near_entry(self.entries@[k as int], x as int, y as int, cx as int,
                            cy as int, min_sep_sq as int));
                    }
                    return true;
                }
            }
            k = k + 1;
        }
        false
    }

    /// Record a newly accepted point under its cell.
    pub fn insert(&mut self, x: i64, y: i64, cx: i64, cy: i64)
        requires
            old(self).wf(),
            in_coord_range(x as int),
            in_coord_range(y as int),
            cx == x as int / old(self).cell_size as int,
            cy == y as int / old(self).cell_size as int,
        ensures
            final(self).wf(),
            final(self).cell_size == old(self).cell_size,
            final(self).entries@ == old(self).entries@.push(GridEntry { x, y, cx, cy }),
    {
        self.entries.push(GridEntry { x, y, cx, cy });
    }
}

/// The `x` coordinate of candidate `i` in a flat `[x0, y0, x1, y1, ...]` buffer.
pub open spec fn pt_x(xy: Seq<i64>, i: int) -> int {
    xy[2 * i] as int
}

pub open spec fn pt_y(xy: Seq<i64>, i: int) -> int {
    xy[2 * i + 1] as int
}

/// Squared Euclidean distance between candidates `i` and `j`.
pub open spec fn dist_sq(xy: Seq<i64>, i: int, j: int) -> int {
    let dx = pt_x(xy, i) - pt_x(xy, j);
    let dy = pt_y(xy, i) - pt_y(xy, j);
    dx * dx + dy * dy
}

/// Candidates `i` and `j` sit in the same or adjacent grid cells and are
/// strictly closer than the minimum squared separation: the configuration
/// the selector promises never to accept.
pub open spec fn near_pair(xy: Seq<i64>, size: int, min_sep: int, i: int, j: int) -> bool {
    let cxi = pt_x(xy, i) / size;
    let cyi = pt_y(xy, i) / size;
    let cxj = pt_x(xy, j) / size;
    let cyj = pt_y(xy, j) / size;
    &&& -1 <= cxi - cxj <= 1
    &&& -1 <= cyi - cyj <= 1
    &&& dist_sq(xy, i, j) < min_sep
}

/// Law: the rejected configuration is symmetric — candidate `i` crowds
/// candidate `j` exactly when `j` crowds `i`.
pub proof fn lemma_near_pair_symmetric(xy: Seq<i64>, size: int, min_sep: int, i: int, j: int)
    ensures
        near_pair(xy, size, min_sep, i, j) == near_pair(xy, size, min_sep, j, i),
{
    let dx = pt_x(xy, i) - pt_x(xy, j);
    let dy = pt_y(xy, i) - pt_y(xy, j);
    assert(dx * dx == (-dx) * (-dx)) by (nonlinear_arith);
    assert(dy * dy == (-dy) * (-dy)) by (nonlinear_arith);
}

/// Candidate `i` is crowded: some already accepted point sits in the same
/// or an adjacent cell, strictly within the minimum squared separation.
pub open spec fn crowded(xy: Seq<i64>, size: int, min_sep: int, picked: Seq<u32>, i: int) -> bool {
    exists|k: int|
        0 <= k < picked.len() && near_pair(xy, size, min_sep, i, #[trigger] picked[k] as int)
}

/// The per-candidate acceptance test, applied identically in every pass:
/// the index is in range, not yet accepted, usable, and not crowded.
pub open spec fn accepts(
    xy: Seq<i64>,
    usable: Seq<bool>,
    size: int,
    min_sep: int,
    picked: Seq<u32>,
    idx: int,
) -> bool {
    &&& 0 <= idx < usable.len()
    &&& !picked.contains(idx as u32)
    &&& usable[idx]
    &&& !crowded(xy, size, min_sep, picked, idx)
}

/// One if the index counts toward the accepted-locked tally.
pub open spec fn locked_flag(mask: Seq<u8>, idx: int) -> int {
    if 0 <= idx < mask.len() && mask[idx] != 0 {
        1
    } else {
        0
    }
}

/// One budgeted greedy pass, folded over a visitation order: every entry is
/// tried in turn while the shared cap and the pass budget last; an accepted
/// entry is appended and spends one budget unit.  Returns the accepted list
/// and the accepted-locked tally.
pub open spec fn pass_fold(
    order: Seq<u32>,
    xy: Seq<i64>,
    usable: Seq<bool>,
    mask: Seq<u8>,
    size: int,
    min_sep: int,
    cap: int,
    budget: int,
    picked: Seq<u32>,
    locked: int,
) -> (Seq<u32>, int)
    decreases order.len(),
{
    if order.len() == 0 || picked.len() >= cap || budget <= 0 {
        (picked, locked)
    } else {
        let idx = order.first() as int;
        if accepts(xy, usable, size, min_sep, picked, idx) {
            pass_fold(
                order.drop_first(),
                xy,
                usable,
                mask,
                size,
                min_sep,
                cap,
                budget - 1,
                picked.push(order.first()),
                locked + locked_flag(mask, idx),
            )
        } else {
            pass_fold(order.drop_first(), xy, usable, mask, size, min_sep, cap, budget, picked,
                locked)
        }
    }
}

/// The locked-pass share of a remaining budget: `remaining * num / den`,
/// rounded half up.
pub open spec fn share_round(remaining: int, num: int, den: int) -> int {
    (2 * remaining * num + den) / (2 * den)
}

/// The whole tiered selection as a function of its inputs: the priority
/// order may use the entire cap; the rest is split by the rounded share
/// between the two locked orders, the outside budget optionally capped by
/// the accepted-locked tally.  The result of the selector equals this trace.
pub open spec fn selector_trace(
    xy: Seq<i64>,
    priority: Seq<u32>,
    in_locked: Seq<u32>,
    out_locked: Seq<u32>,
    mask: Seq<u8>,
    usable: Seq<bool>,
    cap: int,
    num: int,
    den: int,
    hard_cap: bool,
    min_sep: int,
    size: int,
) -> Seq<u32> {
    if cap <= 0 {
        Seq::empty()
    } else {
        let s1 = pass_fold(priority, xy, usable, mask, size, min_sep, cap, cap, Seq::empty(), 0);
        let remaining = cap - s1.0.len();
        if remaining > 0 {
            let rounded = share_round(remaining, num, den);
            let in_b = if rounded > remaining {
                remaining
            } else {
                rounded
            };
            let s2 = pass_fold(in_locked, xy, usable, mask, size, min_sep, cap, in_b, s1.0, s1.1);
            let out_full = remaining - in_b;
            let out_b = if hard_cap && s2.1 < out_full {
                s2.1
            } else {
                out_full
            };
            let s3 = pass_fold(out_locked, xy, usable, mask, size, min_sep, cap, out_b, s2.0,
                s2.1);
            s3.0
        } else {
            s1.0
        }
    }
}

/// Internal consistency of the selection state: every accepted index is a
/// distinct, usable candidate; the mask mirrors the accepted set; the grid
/// holds exactly the accepted points; and no two accepted points violate the
/// neighborhood separation.
pub open spec fn sel_inv(
    xy: Seq<i64>,
    usable: Seq<bool>,
    min_sep: int,
    picked: Seq<u32>,
    pset: Seq<bool>,
    grid: SpatialGrid,
) -> bool {
    &&& xy.len() == 2 * usable.len()
    &&& all_in_coord_range(xy)
    &&& grid.wf()
    &&& pset.len() == usable.len()
    &&& forall|k: int|
        0 <= k < picked.len() ==> (#[trigger] picked[k] < usable.len() && usable[picked[k] as int]
            && pset[picked[k] as int])
    &&& forall|i: int|
        0 <= i < pset.len() && i < 0x1_0000_0000 ==> (#[trigger] pset[i] <==> picked.contains(
            i as u32,
        ))
    &&& forall|k: int, l: int| 0 <= k < l < picked.len() ==> picked[k] != picked[l]
    &&& grid.entries@.len() == picked.len()
    &&& forall|k: int|
        0 <= k < picked.len() ==> (#[trigger] grid.entries@[k]).x == xy[2 * (picked[k] as int)]
            && grid.entries@[k].y == xy[2 * (picked[k] as int) + 1]
    &&& forall|k: int, l: int|
        0 <= k < picked.len() && 0 <= l < picked.len() && k != l ==> !near_pair(xy,
        grid.cell_size as int, min_sep, #[trigger] picked[k] as int, #[trigger] picked[l] as int)
}

/// One budgeted pass over a visitation order.  Out-of-range indices, already
/// accepted indices and unusable candidates are skipped silently; the pass
/// stops when the shared cap or its own budget is exhausted.
#[verifier::loop_isolation(false)]
fn pick_from_order(
    order: &[u32],
    xy: &[i64],
    usable: &[bool],
    locked_mask: &[u8],
    max_primary: usize,
    budget: usize,
    min_separation_sq: u64,
    picked: &mut Vec<u32>,
    picked_set: &mut Vec<bool>,
    grid: &mut SpatialGrid,
    locked_count: &mut usize,
)
    requires
        sel_inv(xy@, usable@, min_separation_sq as int, old(picked)@, old(picked_set)@,
            *old(grid)),
        old(picked)@.len() <= max_primary,
        *old(locked_count) <= old(picked)@.len(),
    ensures
        sel_inv(xy@, usable@, min_separation_sq as int, final(picked)@, final(picked_set)@,
            *final(grid)),
        final(picked)@.len() <= max_primary,
        *final(locked_count) <= final(picked)@.len(),
        final(grid).cell_size == old(grid).cell_size,
        final(picked)@.len() >= old(picked)@.len(),
        final(picked)@.subrange(0, old(picked)@.len() as int) == old(picked)@,
        final(picked)@.len() <= old(picked)@.len() + budget,
        (final(picked)@, *final(locked_count) as int) == pass_fold(
            order@,
            xy@,
            usable@,
            locked_mask@,
            old(grid).cell_size as int,
            min_separation_sq as int,
            max_primary as int,
            budget as int,
            old(picked)@,
            *old(locked_count) as int,
        ),
{
    let ghost size = old(grid).cell_size as int;
    let ghost goal = pass_fold(order@, xy@, usable@, locked_mask@, size,
        min_separation_sq as int, max_primary as int, budget as int, old(picked)@,
        *old(locked_count) as int);
    let n = usable.len();
    let xylen = xy.len();
    let mut left = budget;
    let mut m: usize = 0;
    proof {
        assert(order@.skip(0) =~= order@);
    }
    while m < order.len() && picked.len() < max_primary && left > 0
        invariant
            m <= order@.len(),
            sel_inv(xy@, usable@, min_separation_sq as int, picked@, picked_set@, *grid),
            picked@.len() <= max_primary,
            *locked_count <= picked@.len(),
            grid.cell_size == old(grid).cell_size,
            picked@.len() >= old(picked)@.len(),
            picked@.subrange(0, old(picked)@.len() as int) == old(picked)@,
            left <= budget,
            picked@.len() <= old(picked)@.len() + (budget - left),
            pass_fold(order@.skip(m as int), xy@, usable@, locked_mask@, size,
                min_separation_sq as int, max_primary as int, left as int, picked@,
                *locked_count as int) == goal,
        decreases order@.len() - m,
    {
        let ghost rest = order@.skip(m as int);
        let ghost pre_picked = picked@;
        let ghost pre_locked = *locked_count as int;
        let ghost pre_left = left as int;
        proof {
            assert(rest.len() > 0);
            assert(rest.first() == order@[m as int]);
            assert(rest.drop_first() =~= order@.skip(m + 1));
        }
        let idx_u = order[m];
        let idx = idx_u as usize;
        if idx < n && !picked_set[idx] && usable[idx] {
            proof {
                assert(xylen == 2 * n);
                assert(2 * idx + 1 < xylen);
            }
            let x = xy[2 * idx];
            let y = xy[2 * idx + 1];
            let cx = grid.cell_of(x);
            let cy = grid.cell_of(y);
            let near = grid.has_neighbor_within(x, y, cx, cy, min_separation_sq);
            proof {
                assert(near == crowded(xy@, size, min_separation_sq as int, picked@, idx as int))
                    by {
                    if near {
                        let k = choose|k: int|
                            0 <= k < grid.entries@.len() && near_entry(
                                #[trigger] grid.entries@[k],
                                x as int,
                                y as int,
                                cx as int,
                                cy as int,
                                min_separation_sq as int,
                            );
                        let pk = picked@[k] as int;
                        assert(grid.entries@[k].x == xy@[2 * pk]);
                        assert(grid.entries@[k].y == xy@[2 * pk + 1]);
                        assert(near_pair(xy@, size, min_separation_sq as int, idx as int, pk));
                        assert(crowded(xy@, size, min_separation_sq as int, picked@, idx as int));
                    }
                    if crowded(xy@, size, min_separation_sq as int, picked@, idx as int) {
                        let k = choose|k: int|
                            0 <= k < picked@.len() && near_pair(xy@, size,
                            min_separation_sq as int, idx as int, #[trigger] picked@[k] as int);
                        let pk = picked@[k] as int;
                        assert(grid.entries@[k].x == xy@[2 * pk]);
                        assert(grid.entries@[k].y == xy@[2 * pk + 1]);
                        assert(near_entry(grid.entries@[k], x as int, y as int, cx as int,
                            cy as int, min_separation_sq as int));
                        assert(near);
                    }
                }
            }
            if !near {
                let ghost old_picked = picked@;
                picked.push(idx_u);
                picked_set.set(idx, true);
                if idx < locked_mask.len() && locked_mask[idx] != 0 {
                    *locked_count = *locked_count + 1;
                }
                left = left - 1;
                grid.insert(x, y, cx, cy);
                proof {
                    assert forall|k: int, l: int|
                        0 <= k < picked@.len() && 0 <= l < picked@.len() && k
                            != l implies !near_pair(xy@, grid.cell_size as int,
                        min_separation_sq as int, #[trigger] picked@[k] as int,
                        #[trigger] picked@[l] as int) by {
                        let last = picked@.len() - 1;
                        if k == last || l == last {
                            let o = if k == last { l } else { k };
                            let oi = picked@[o] as int;
                            let e = grid.entries@[o];
                            assert(e.x == xy@[2 * oi] && e.y == xy@[2 * oi + 1]);
                            assert(!near_entry(e, x as int, y as int, cx as int, cy as int,
                                min_separation_sq as int));
                            assert((x - e.x) * (x - e.x) == (e.x - x) * (e.x - x))
                                by (nonlinear_arith);
                            assert((y - e.y) * (y - e.y) == (e.y - y) * (e.y - y))
                                by (nonlinear_arith);
                        }
                    }
                    assert(picked@.subrange(0, old(picked)@.len() as int) =~= old_picked.subrange(
                        0,
                        old(picked)@.len() as int,
                    ));
                    assert forall|i: int|
                        0 <= i < picked_set@.len() && i < 0x1_0000_0000 implies (
                    #[trigger] picked_set@[i] <==> picked@.contains(i as u32)) by {
                        if i == idx {
                            assert(picked@[picked@.len() - 1] == idx_u);
                            assert(picked@.contains(i as u32));
                        } else {
                            if picked@.contains(i as u32) {
                                let k = choose|k: int|
                                    0 <= k < picked@.len() && picked@[k] == i as u32;
                                if k == picked@.len() - 1 {
                                    assert(i as u32 == idx_u);
                                    assert(false);
                                }
                                assert(old_picked[k] == i as u32);
                                assert(old_picked.contains(i as u32));
                            }
                            if old_picked.contains(i as u32) {
                                let k = choose|k: int|
                                    0 <= k < old_picked.len() && old_picked[k] == i as u32;
                                assert(picked@[k] == i as u32);
                                assert(picked@.contains(i as u32));
                            }
                        }
                    }
                    assert(accepts(xy@, usable@, size, min_separation_sq as int, pre_picked,
                        idx as int)) by {
                        assert(!pre_picked.contains(idx_u)) by {
                            if pre_picked.contains(idx_u) {
                                let k = choose|k: int|
                                    0 <= k < pre_picked.len() && pre_picked[k] == idx_u;
                                assert(old_picked[k] == idx_u);
                            }
                        }
                    }
                    assert(picked@ == pre_picked.push(rest.first()));
                    assert(*locked_count as int == pre_locked + locked_flag(
                        locked_mask@,
                        idx as int,
                    ));
                    assert(pass_fold(rest, xy@, usable@, locked_mask@, size,
                        min_separation_sq as int, max_primary as int, pre_left, pre_picked,
                        pre_locked) == pass_fold(order@.skip(m + 1), xy@, usable@, locked_mask@,
                        size, min_separation_sq as int, max_primary as int, left as int, picked@,
                        *locked_count as int));
                }
            } else {
                proof {
                    assert(!accepts(xy@, usable@, size, min_separation_sq as int, pre_picked,
                        idx as int));
                    assert(pass_fold(rest, xy@, usable@, locked_mask@, size,
                        min_separation_sq as int, max_primary as int, pre_left, pre_picked,
                        pre_locked) == pass_fold(order@.skip(m + 1), xy@, usable@, locked_mask@,
                        size, min_separation_sq as int, max_primary as int, left as int, picked@,
                        *locked_count as int));
                }
            }
        } else {
            proof {
                assert(!accepts(xy@, usable@, size, min_separation_sq as int, picked@, idx as int))
                    by {
                    if idx < n {
                        assert(picked_set@[idx as int] || !usable@[idx as int]);
                        if picked_set@[idx as int] {
                            assert(picked@.contains(idx_u));
                        }
                    }
                }
                assert(pass_fold(rest, xy@, usable@, locked_mask@, size,
                    min_separation_sq as int, max_primary as int, pre_left, pre_picked,
                    pre_locked) == pass_fold(order@.skip(m + 1), xy@, usable@, locked_mask@, size,
                    min_separation_sq as int, max_primary as int, left as int, picked@,
                    *locked_count as int));
            }
        }
        m = m + 1;
    }
    proof {
        if m == order@.len() {
            assert(order@.skip(m as int) =~= Seq::<u32>::empty());
        }
    }
}

/// Greedily select a non-overlapping subset of the candidates.
///
/// `xy` is a flat coordinate buffer; `usable[i]` marks candidates whose
/// source coordinates were representable (others are skipped, never
/// rejected with an error).  Three index orders are consumed in turn:
/// `priority_order` may use the whole cap; the remaining budget is split
/// between `in_locked_order` — which receives `share_num / share_den` of
/// it, rounded half up — and `out_locked_order`, whose budget may further
/// be capped by the number of accepted candidates flagged in
/// `in_locked_mask` when `hard_cap_outside_by_in_locked` is set.
///
/// The result equals `selector_trace`: the greedy fold of the per-candidate
/// acceptance test over the three orders under their budgets, which
/// determines it completely.  In particular it lists accepted candidate
/// indices in acceptance order: at most `max_primary_dots` of them, all
/// distinct and usable, and no two accepted points in the same or adjacent
/// grid cells closer than `min_separation_sq`.  Indices out of range in any
/// order are ignored, and a zero cap yields an empty result.
pub fn pick_non_overlapping_indices(
    xy: &[i64],
    priority_order: &[u32],
    in_locked_order: &[u32],
    out_locked_order: &[u32],
    in_locked_mask: &[u8],
    usable: &[bool],
    max_primary_dots: usize,
    share_num: u64,
    share_den: u64,
    hard_cap_outside_by_in_locked: bool,
    min_separation_sq: u64,
    cell_size: i64,
) -> (picked: Vec<u32>)
    requires
        xy@.len() == 2 * usable@.len(),
        all_in_coord_range(xy@),
        1 <= cell_size,
        1 <= share_den <= 0x1_0000_0000,
        share_num <= share_den,
    ensures
        picked@ == selector_trace(
            xy@,
            priority_order@,
            in_locked_order@,
            out_locked_order@,
            in_locked_mask@,
            usable@,
            max_primary_dots as int,
            share_num as int,
            share_den as int,
            hard_cap_outside_by_in_locked,
            min_separation_sq as int,
            cell_size as int,
        ),
        picked@.len() <= max_primary_dots,
        forall|k: int, l: int| 0 <= k < l < picked@.len() ==> picked@[k] != picked@[l],
        forall|k: int|
            0 <= k < picked@.len() ==> (#[trigger] picked@[k] < usable@.len()
                && usable@[picked@[k] as int]),
        forall|k: int, l: int|
            0 <= k < picked@.len() && 0 <= l < picked@.len() && k != l ==> !near_pair(xy@,
            cell_size as int, min_separation_sq as int, #[trigger] picked@[k] as int,
            #[trigger] picked@[l] as int),
        max_primary_dots == 0 ==> picked@.len() == 0,
{
    let ghost size = cell_size as int;
    let ghost cap = max_primary_dots as int;
    let ghost min_sep = min_separation_sq as int;
    let mut picked: Vec<u32> = Vec::new();
    if max_primary_dots == 0 {
        return picked;
    }
    let n = usable.len();
    let mut picked_set: Vec<bool> = Vec::new();
    let mut i: usize = 0;
    #[verifier::loop_isolation(false)]
    while i < n
        invariant
            i <= n,
            picked_set@.len() == i,
            forall|k: int| 0 <= k < i ==> !picked_set@[k],
        decreases n - i,
    {
        picked_set.push(false);
        i = i + 1;
    }
    let mut grid = SpatialGrid::new(cell_size);
    let mut locked_count: usize = 0;
    let ghost s1 = pass_fold(priority_order@, xy@, usable@, in_locked_mask@, size, min_sep, cap,
        cap, Seq::empty(), 0);

    pick_from_order(
        priority_order,
        xy,
        usable,
        in_locked_mask,
        max_primary_dots,
        max_primary_dots,
        min_separation_sq,
        &mut picked,
        &mut picked_set,
        &mut grid,
        &mut locked_count,
    );
    proof {
        assert((picked@, locked_count as int) == s1);
    }

    let remaining = max_primary_dots - picked.len();
    if remaining > 0 {
        let mut in_budget = split_budget(remaining, share_num, share_den);
        if in_budget > remaining {
            in_budget = remaining;
        }
        let out_full = remaining - in_budget;
        proof {
            assert(in_budget as int == (if share_round(cap - s1.0.len(), share_num as int,
                share_den as int) > cap - s1.0.len() {
                cap - s1.0.len()
            } else {
                share_round(cap - s1.0.len(), share_num as int, share_den as int)
            }));
        }
        let ghost s2 = pass_fold(in_locked_order@, xy@, usable@, in_locked_mask@, size, min_sep,
            cap, in_budget as int, s1.0, s1.1);

        pick_from_order(
            in_locked_order,
            xy,
            usable,
            in_locked_mask,
            max_primary_dots,
            in_budget,
            min_separation_sq,
            &mut picked,
            &mut picked_set,
            &mut grid,
            &mut locked_count,
        );
        proof {
            assert((picked@, locked_count as int) == s2);
        }

        let out_budget = if hard_cap_outside_by_in_locked && locked_count < out_full {
            locked_count
        } else {
            out_full
        };
        let ghost s3 = pass_fold(out_locked_order@, xy@, usable@, in_locked_mask@, size, min_sep,
            cap, out_budget as int, s2.0, s2.1);

        pick_from_order(
            out_locked_order,
            xy,
            usable,
            in_locked_mask,
            max_primary_dots,
            out_budget,
            min_separation_sq,
            &mut picked,
            &mut picked_set,
            &mut grid,
            &mut locked_count,
        );
        proof {
            assert((picked@, locked_count as int) == s3);
            assert(picked@ == selector_trace(xy@, priority_order@, in_locked_order@,
                out_locked_order@, in_locked_mask@, usable@, cap, share_num as int,
                share_den as int, hard_cap_outside_by_in_locked, min_sep, size));
        }
    } else {
        proof {
            assert(picked@ == selector_trace(xy@, priority_order@, in_locked_order@,
                out_locked_order@, in_locked_mask@, usable@, cap, share_num as int,
                share_den as int, hard_cap_outside_by_in_locked, min_sep, size));
        }
    }
    picked
}

/// Share of a remaining budget granted to the locked pass: the fraction
/// `num / den` of `remaining`, rounded half up, never more than `remaining`.
fn split_budget(remaining: usize, num: u64, den: u64) -> (r: usize)
    requires
        1 <= den <= 0x1_0000_0000,
        num <= den,
    ensures
        r == (2 * remaining * num + den) / (2 * den),
        r <= remaining,
{
    let rem = remaining as u128;
    let nu = num as u128;
    let de = den as u128;
    proof {
        assert(2 * (rem as int) * (nu as int) <= 0x2_0000_0000_0000_0000_0000_0000)
            by (nonlinear_arith)
            requires
                0 <= rem <= 0xffff_ffff_ffff_ffff,
                0 <= nu <= 0x1_0000_0000,
        ;
    }
    let q = (2 * rem * nu + de) / (2 * de);
    proof {
        let ri = remaining as int;
        let ni = num as int;
        let di = den as int;
        assert(2 * ri * ni <= 2 * ri * di) by (nonlinear_arith)
            requires
                0 <= ri,
                0 <= ni <= di,
        ;
        vstd::arithmetic::div_mod::lemma_div_is_ordered(
            2 * ri * ni + di,
            2 * ri * di + di,
            2 * di,
        );
        assert(2 * ri * di + di == ri * (2 * di) + di) by (nonlinear_arith);
        vstd::arithmetic::div_mod::lemma_fundamental_div_mod_converse(
            2 * ri * di + di,
            2 * di,
            ri,
            di,
        );
        assert((2 * ri * di + di) / (2 * di) == ri);
    }
    q as usize
}

} // verus!
