//! Planar geometry predicates over integer pixel coordinates.
//!
//! Coordinates are integers in a bounded pixel space, so every test here is
//! exact: the even-odd ray cast compares cross products instead of dividing,
//! and point-to-segment proximity clears denominators rather than projecting
//! with rounded arithmetic.

use vstd::prelude::*;

verus! {

/// Coordinates live in a bounded pixel space so products fit the machine.
pub open spec fn in_coord_range(c: int) -> bool {
    -0x4000_0000 <= c <= 0x4000_0000
}

pub open spec fn all_in_coord_range(s: Seq<i64>) -> bool {
    forall|k: int| 0 <= k < s.len() ==> in_coord_range(#[trigger] s[k] as int)
}

pub proof fn lemma_mul_bound(a: int, b: int, m: int)
    by (nonlinear_arith)
    requires
        0 <= m,
        -m <= a <= m,
        -m <= b <= m,
    ensures
        -(m * m) <= a * b <= m * m,
{
}

/// Does the horizontal ray from `(px, py)` cross the edge from vertex `i`
/// to vertex `j`?  The strict/non-strict mix on the `y` tests keeps an edge
/// shared by two segments from being counted twice; the `x` test is the
/// exact form of `px < xi + (xj - xi) * (py - yi) / (yj - yi)`.
pub open spec fn edge_crosses(px: int, py: int, xi: int, yi: int, xj: int, yj: int) -> bool {
    ((yi > py) != (yj > py)) && {
        let lhs = (px - xi) * (yj - yi);
        let rhs = (xj - xi) * (py - yi);
        if yj > yi {
            lhs < rhs
        } else {
            lhs > rhs
        }
    }
}

pub open spec fn ring_x(ring: Seq<i64>, i: int) -> int {
    ring[2 * i] as int
}

pub open spec fn ring_y(ring: Seq<i64>, i: int) -> int {
    ring[2 * i + 1] as int
}

/// Even-odd parity of ray crossings over the first `k` edges of the ring;
/// edge `i` joins vertex `i` to its predecessor (the last vertex for `i == 0`).
pub open spec fn crossing_parity(px: int, py: int, ring: Seq<i64>, k: nat) -> bool
    decreases k,
{
    if k == 0 {
        false
    } else {
        let i = k - 1;
        let j = if i == 0 {
            ring.len() as int / 2 - 1
        } else {
            i - 1
        };
        crossing_parity(px, py, ring, (k - 1) as nat) != edge_crosses(
            px,
            py,
            ring_x(ring, i),
            ring_y(ring, i),
            ring_x(ring, j),
            ring_y(ring, j),
        )
    }
}

/// Even-odd point-in-polygon test over a flat `[x0, y0, x1, y1, ...]` ring.
/// Rings with fewer than three vertices contain nothing; a trailing odd
/// value is ignored.
pub open spec fn in_ring(px: int, py: int, ring: Seq<i64>) -> bool {
    let pts = ring.len() as int / 2;
    if pts < 3 {
        false
    } else {
        crossing_parity(px, py, ring, pts as nat)
    }
}

/// Even-odd ray-casting containment test, exact over integer coordinates.
pub fn point_in_ring(px: i64, py: i64, ring: &[i64]) -> (r: bool)
    requires
        in_coord_range(px as int),
        in_coord_range(py as int),
        all_in_coord_range(ring@),
    ensures
        r == in_ring(px as int, py as int, ring@),
{
    let rlen = ring.len();
    let pts = rlen / 2;
    proof {
        vstd::arithmetic::div_mod::lemma_fundamental_div_mod(rlen as int, 2);
    }
    if pts < 3 {
        return false;
    }
    let mut inside = false;
    let mut j: usize = pts - 1;
    let mut i: usize = 0;
    while i < pts
        invariant
            3 <= pts,
            rlen == ring@.len(),
            pts == ring@.len() / 2,
            2 * pts <= rlen,
            i <= pts,
            j == if i == 0 { (pts - 1) as int } else { i - 1 },
            in_coord_range(px as int),
            in_coord_range(py as int),
            all_in_coord_range(ring@),
            inside == crossing_parity(px as int, py as int, ring@, i as nat),
        decreases pts - i,
    {
        let xi = ring[i * 2];
        let yi = ring[i * 2 + 1];
        let xj = ring[j * 2];
        let yj = ring[j * 2 + 1];
        proof {
            lemma_mul_bound(px - xi, yj - yi, 0x8000_0000);
            lemma_mul_bound(xj - xi, py - yi, 0x8000_0000);
        }
        let lhs: i128 = (px as i128 - xi as i128) * (yj as i128 - yi as i128);
        let rhs: i128 = (xj as i128 - xi as i128) * (py as i128 - yi as i128);
        let straddles = (yi > py) != (yj > py);
        let intersects = straddles && (if yj > yi {
            lhs < rhs
        } else {
            lhs > rhs
        });
        proof {
            assert(intersects == edge_crosses(
                px as int,
                py as int,
                ring_x(ring@, i as int),
                ring_y(ring@, i as int),
                ring_x(ring@, j as int),
                ring_y(ring@, j as int),
            ));
        }
        if intersects {
            inside = !inside;
        }
        j = i;
        i = i + 1;
    }
    inside
}

/// Is the squared distance from `(px, py)` to the segment `(ax, ay)`-`(bx, by)`
/// strictly below `tsq`?  The projection parameter is clamped to the segment,
/// and a zero-length segment degenerates to a point distance.  Comparisons are
/// exact: the interior case multiplies through by the squared segment length.
pub open spec fn seg_within_sq(
    px: int,
    py: int,
    ax: int,
    ay: int,
    bx: int,
    by: int,
    tsq: int,
) -> bool {
    let abx = bx - ax;
    let aby = by - ay;
    let apx = px - ax;
    let apy = py - ay;
    let denom = abx * abx + aby * aby;
    let dot = apx * abx + apy * aby;
    if denom <= 0 {
        apx * apx + apy * apy < tsq
    } else if dot <= 0 {
        apx * apx + apy * apy < tsq
    } else if dot >= denom {
        let bpx = px - bx;
        let bpy = py - by;
        bpx * bpx + bpy * bpy < tsq
    } else {
        (apx * apx + apy * apy) * denom - dot * dot < tsq * denom
    }
}

/// Exact threshold test against one segment.
pub fn segment_within_sq(
    px: i64,
    py: i64,
    ax: i64,
    ay: i64,
    bx: i64,
    by: i64,
    t_sq: u64,
) -> (r: bool)
    requires
        in_coord_range(px as int),
        in_coord_range(py as int),
        in_coord_range(ax as int),
        in_coord_range(ay as int),
        in_coord_range(bx as int),
        in_coord_range(by as int),
        t_sq < 0x4000_0000_0000_0000,
    ensures
        r == seg_within_sq(px as int, py as int, ax as int, ay as int, bx as int, by as int,
            t_sq as int),
{
    let abx: i128 = bx as i128 - ax as i128;
    let aby: i128 = by as i128 - ay as i128;
    let apx: i128 = px as i128 - ax as i128;
    let apy: i128 = py as i128 - ay as i128;
    proof {
        lemma_mul_bound(abx as int, abx as int, 0x8000_0000);
        lemma_mul_bound(aby as int, aby as int, 0x8000_0000);
        lemma_mul_bound(apx as int, apx as int, 0x8000_0000);
        lemma_mul_bound(apy as int, apy as int, 0x8000_0000);
        lemma_mul_bound(apx as int, abx as int, 0x8000_0000);
        lemma_mul_bound(apy as int, aby as int, 0x8000_0000);
    }
    let denom: i128 = abx * abx + aby * aby;
    let dot: i128 = apx * abx + apy * aby;
    if denom <= 0 {
        let d: i128 = apx * apx + apy * apy;
        d < t_sq as i128
    } else if dot <= 0 {
        let d: i128 = apx * apx + apy * apy;
        d < t_sq as i128
    } else if dot >= denom {
        let bpx: i128 = px as i128 - bx as i128;
        let bpy: i128 = py as i128 - by as i128;
        proof {
            lemma_mul_bound(bpx as int, bpx as int, 0x8000_0000);
            lemma_mul_bound(bpy as int, bpy as int, 0x8000_0000);
        }
        let d: i128 = bpx * bpx + bpy * bpy;
        d < t_sq as i128
    } else {
        let apsq: i128 = apx * apx + apy * apy;
        proof {
            lemma_mul_bound(apsq as int, denom as int, 0x8000_0000_0000_0000);
            lemma_mul_bound(dot as int, dot as int, 0x8000_0000_0000_0000);
            lemma_mul_bound(t_sq as int, denom as int, 0x8000_0000_0000_0000);
        }
        apsq * denom - dot * dot < (t_sq as i128) * denom
    }
}

proof fn lemma_foot_expand(d: int, q: int, ux: int, uy: int, vx: int, vy: int)
    ensures
        (d * ux - q * vx) * (d * ux - q * vx) + (d * uy - q * vy) * (d * uy - q * vy) == d * d * (
        ux * ux + uy * uy) - 2 * (d * q) * (ux * vx + uy * vy) + (q * q) * (vx * vx + vy * vy),
{
    assert((d * ux - q * vx) * (d * ux - q * vx) == (d * ux) * (d * ux) - 2 * ((d * ux) * (q * vx))
        + (q * vx) * (q * vx)) by (nonlinear_arith);
    assert((d * uy - q * vy) * (d * uy - q * vy) == (d * uy) * (d * uy) - 2 * ((d * uy) * (q * vy))
        + (q * vy) * (q * vy)) by (nonlinear_arith);
    assert((d * ux) * (d * ux) == d * d * (ux * ux)) by (nonlinear_arith);
    assert((d * uy) * (d * uy) == d * d * (uy * uy)) by (nonlinear_arith);
    assert((q * vx) * (q * vx) == (q * q) * (vx * vx)) by (nonlinear_arith);
    assert((q * vy) * (q * vy) == (q * q) * (vy * vy)) by (nonlinear_arith);
    assert((d * ux) * (q * vx) == (d * q) * (ux * vx)) by (nonlinear_arith);
    assert((d * uy) * (q * vy) == (d * q) * (uy * vy)) by (nonlinear_arith);
    assert(d * d * (ux * ux + uy * uy) == d * d * (ux * ux) + d * d * (uy * uy))
        by (nonlinear_arith);
    assert((q * q) * (vx * vx + vy * vy) == (q * q) * (vx * vx) + (q * q) * (vy * vy))
        by (nonlinear_arith);
    assert((d * q) * (ux * vx + uy * vy) == (d * q) * (ux * vx) + (d * q) * (uy * vy))
        by (nonlinear_arith);
    assert(2 * (d * q) * (ux * vx + uy * vy) == 2 * ((d * q) * (ux * vx + uy * vy)))
        by (nonlinear_arith);
}

proof fn lemma_foot_regroup(d: int, q: int, p: int)
    by (nonlinear_arith)
    ensures
        d * d * p - 2 * (d * q) * q + (q * q) * d == d * (p * d - q * q),
{
}

/// Law: the bounding box derived from a segment's endpoints, expanded by
/// `t`, contains every point strictly within `t` of the segment — so
/// filtering on the derived box before the exact test rejects nothing that
/// the exact test would accept.
pub proof fn lemma_derived_box_conservative(
    px: int,
    py: int,
    ax: int,
    ay: int,
    bx: int,
    by: int,
    t: int,
)
    requires
        0 <= t,
        seg_within_sq(px, py, ax, ay, bx, by, t * t),
    ensures
        (if ax <= bx {
            ax
        } else {
            bx
        }) - t <= px <= (if ax <= bx {
            bx
        } else {
            ax
        }) + t,
        (if ay <= by {
            ay
        } else {
            by
        }) - t <= py <= (if ay <= by {
            by
        } else {
            ay
        }) + t,
{
    let abx = bx - ax;
    let aby = by - ay;
    let apx = px - ax;
    let apy = py - ay;
    let denom = abx * abx + aby * aby;
    let dot = apx * abx + apy * aby;
    let min_x = if ax <= bx { ax } else { bx };
    let max_x = if ax <= bx { bx } else { ax };
    let min_y = if ay <= by { ay } else { by };
    let max_y = if ay <= by { by } else { ay };
    if denom <= 0 || dot <= 0 {
        // The distance is measured to the endpoint `a`.
        assert(apx * apx + apy * apy < t * t);
        assert(apx * apx <= apx * apx + apy * apy) by (nonlinear_arith);
        assert(-t < apx < t) by (nonlinear_arith)
            requires
                apx * apx < t * t,
                0 <= t,
        ;
        assert(apy * apy <= apx * apx + apy * apy) by (nonlinear_arith);
        assert(-t < apy < t) by (nonlinear_arith)
            requires
                apy * apy < t * t,
                0 <= t,
        ;
        if denom <= 0 {
            assert(abx * abx >= 0 && aby * aby >= 0) by (nonlinear_arith);
            assert(abx == 0 && aby == 0) by (nonlinear_arith)
                requires
                    abx * abx + aby * aby <= 0,
            ;
        }
    } else if dot >= denom {
        // The distance is measured to the endpoint `b`.
        let bpx = px - bx;
        let bpy = py - by;
        assert(bpx * bpx + bpy * bpy < t * t);
        assert(bpx * bpx <= bpx * bpx + bpy * bpy) by (nonlinear_arith);
        assert(-t < bpx < t) by (nonlinear_arith)
            requires
                bpx * bpx < t * t,
                0 <= t,
        ;
        assert(bpy * bpy <= bpy * bpy + bpx * bpx) by (nonlinear_arith);
        assert(-t < bpy < t) by (nonlinear_arith)
            requires
                bpy * bpy < t * t,
                0 <= t,
        ;
    } else {
        // Interior case: the foot of the perpendicular lies on the segment,
        // so its coordinates stay inside the box, and the point is within
        // `t` of the foot.
        let apsq = apx * apx + apy * apy;
        assert(apsq * denom - dot * dot < (t * t) * denom);
        let dfx = denom * apx - dot * abx;
        let dfy = denom * apy - dot * aby;
        assert(dfx * dfx + dfy * dfy == denom * (apsq * denom - dot * dot)) by {
            lemma_foot_expand(denom, dot, apx, apy, abx, aby);
            lemma_foot_regroup(denom, dot, apsq);
        }
        assert(denom * (apsq * denom - dot * dot) < denom * ((t * t) * denom)) by (nonlinear_arith)
            requires
                0 < denom,
                apsq * denom - dot * dot < (t * t) * denom,
        ;
        assert(dfy * dfy >= 0) by (nonlinear_arith);
        assert(dfx * dfx < (denom * t) * (denom * t)) by (nonlinear_arith)
            requires
                dfx * dfx + dfy * dfy == denom * (apsq * denom - dot * dot),
                denom * (apsq * denom - dot * dot) < denom * ((t * t) * denom),
                dfy * dfy >= 0,
        ;
        assert(denom * t >= 0) by (nonlinear_arith)
            requires
                0 < denom,
                0 <= t,
        ;
        assert(-(denom * t) < dfx < denom * t) by (nonlinear_arith)
            requires
                dfx * dfx < (denom * t) * (denom * t),
                denom * t >= 0,
        ;
        assert(dfx * dfx >= 0) by (nonlinear_arith);
        assert(dfy * dfy < (denom * t) * (denom * t)) by (nonlinear_arith)
            requires
                dfx * dfx + dfy * dfy == denom * (apsq * denom - dot * dot),
                denom * (apsq * denom - dot * dot) < denom * ((t * t) * denom),
                dfx * dfx >= 0,
        ;
        assert(-(denom * t) < dfy < denom * t) by (nonlinear_arith)
            requires
                dfy * dfy < (denom * t) * (denom * t),
                denom * t >= 0,
        ;
        // Foot x-coordinate, scaled by denom: denom*ax + dot*abx.
        let fx = denom * ax + dot * abx;
        let fy = denom * ay + dot * aby;
        assert(denom * min_x <= fx <= denom * max_x) by (nonlinear_arith)
            requires
                0 < dot < denom,
                fx == denom * ax + dot * abx,
                abx == bx - ax,
                min_x == (if ax <= bx { ax } else { bx }),
                max_x == (if ax <= bx { bx } else { ax }),
        ;
        assert(denom * min_y <= fy <= denom * max_y) by (nonlinear_arith)
            requires
                0 < dot < denom,
                fy == denom * ay + dot * aby,
                aby == by - ay,
                min_y == (if ay <= by { ay } else { by }),
                max_y == (if ay <= by { by } else { ay }),
        ;
        // dfx == denom*px - fx, so px stays within t of [min_x, max_x].
        assert(dfx == denom * px - fx) by (nonlinear_arith)
            requires
                dfx == denom * apx - dot * abx,
                apx == px - ax,
                fx == denom * ax + dot * abx,
        ;
        assert(dfy == denom * py - fy) by (nonlinear_arith)
            requires
                dfy == denom * apy - dot * aby,
                apy == py - ay,
                fy == denom * ay + dot * aby,
        ;
        assert(min_x - t <= px <= max_x + t) by (nonlinear_arith)
            requires
                0 < denom,
                -(denom * t) < dfx < denom * t,
                dfx == denom * px - fx,
                denom * min_x <= fx <= denom * max_x,
        ;
        assert(min_y - t <= py <= max_y + t) by (nonlinear_arith)
            requires
                0 < denom,
                -(denom * t) < dfy < denom * t,
                dfy == denom * py - fy,
                denom * min_y <= fy <= denom * max_y,
        ;
    }
}

/// One eight-value record: both endpoints and a caller-supplied bounding box.
/// The box is a conservative filter applied before the exact distance test,
/// exactly as stored — callers own its correctness.
pub open spec fn seg8_hit_at(px: int, py: int, data: Seq<i64>, k: int, t: int) -> bool {
    let ax = data[8 * k] as int;
    let ay = data[8 * k + 1] as int;
    let bx = data[8 * k + 2] as int;
    let by = data[8 * k + 3] as int;
    let min_x = data[8 * k + 4] as int;
    let max_x = data[8 * k + 5] as int;
    let min_y = data[8 * k + 6] as int;
    let max_y = data[8 * k + 7] as int;
    !(px < min_x - t || px > max_x + t || py < min_y - t || py > max_y + t) && seg_within_sq(
        px,
        py,
        ax,
        ay,
        bx,
        by,
        t * t,
    )
}

/// One four-value record: endpoints only, with the bounding box derived.
pub open spec fn seg4_hit_at(px: int, py: int, data: Seq<i64>, k: int, t: int) -> bool {
    let ax = data[4 * k] as int;
    let ay = data[4 * k + 1] as int;
    let bx = data[4 * k + 2] as int;
    let by = data[4 * k + 3] as int;
    let min_x = if ax <= bx { ax } else { bx };
    let max_x = if ax <= bx { bx } else { ax };
    let min_y = if ay <= by { ay } else { by };
    let max_y = if ay <= by { by } else { ay };
    !(px < min_x - t || px > max_x + t || py < min_y - t || py > max_y + t) && seg_within_sq(
        px,
        py,
        ax,
        ay,
        bx,
        by,
        t * t,
    )
}

/// The point is strictly within `t` of the `k`-th four-value segment.
pub open spec fn seg4_within_at(px: int, py: int, data: Seq<i64>, k: int, t: int) -> bool {
    seg_within_sq(
        px,
        py,
        data[4 * k] as int,
        data[4 * k + 1] as int,
        data[4 * k + 2] as int,
        data[4 * k + 3] as int,
        t * t,
    )
}

/// Is any listed segment within `t` of the point?  A buffer whose length is a
/// positive multiple of eight carries precomputed boxes; any other buffer is
/// read as four-value records, with a trailing partial record ignored.
pub open spec fn near_any(px: int, py: int, data: Seq<i64>, t: int) -> bool {
    if data.len() >= 8 && data.len() % 8 == 0 {
        exists|k: int| 0 <= k < data.len() / 8 && seg8_hit_at(px, py, data, k, t)
    } else {
        exists|k: int| 0 <= k < data.len() / 4 && seg4_hit_at(px, py, data, k, t)
    }
}

/// Batched proximity test: scans the records in order and reports whether any
/// segment passes its box filter and lies strictly within `threshold` of the
/// point.
pub fn is_point_near_segments(px: i64, py: i64, segments: &[i64], threshold: u64) -> (r: bool)
    requires
        in_coord_range(px as int),
        in_coord_range(py as int),
        all_in_coord_range(segments@),
        threshold <= 0x4000_0000,
    ensures
        r == near_any(px as int, py as int, segments@, threshold as int),
        !(segments@.len() >= 8 && segments@.len() % 8 == 0) ==> r == exists|k: int|
            0 <= k < segments@.len() / 4 && seg4_within_at(px as int, py as int, segments@, k,
            threshold as int),
{
    let t = threshold as i64;
    proof {
        lemma_mul_bound(threshold as int, threshold as int, 0x4000_0000);
    }
    let t_sq: u64 = threshold * threshold;
    let n = segments.len();
    if n >= 8 && n % 8 == 0 {
        let chunks = n / 8;
        proof {
            vstd::arithmetic::div_mod::lemma_fundamental_div_mod(n as int, 8);
        }
        let mut k: usize = 0;
        while k < chunks
            invariant
                n == segments@.len(),
                chunks == segments@.len() / 8,
                8 * chunks <= n,
                segments@.len() % 8 == 0,
                segments@.len() >= 8,
                k <= chunks,
                t_sq < 0x4000_0000_0000_0000,
                t == threshold as i64,
                t_sq == threshold * threshold,
                threshold <= 0x4000_0000,
                in_coord_range(px as int),
                in_coord_range(py as int),
                all_in_coord_range(segments@),
                forall|m: int|
                    0 <= m < k ==> !seg8_hit_at(px as int, py as int, segments@, m,
                    threshold as int),
            decreases chunks - k,
        {
            proof {
                vstd::arithmetic::div_mod::lemma_fundamental_div_mod(segments@.len() as int, 8);
            }
            let base = k * 8;
            let ax = segments[base];
            let ay = segments[base + 1];
            let bx = segments[base + 2];
            let by = segments[base + 3];
            let min_x = segments[base + 4];
            let max_x = segments[base + 5];
            let min_y = segments[base + 6];
            let max_y = segments[base + 7];
            if !(px < min_x - t || px > max_x + t || py < min_y - t || py > max_y + t) {
                if segment_within_sq(px, py, ax, ay, bx, by, t_sq) {
                    proof {
                        assert(seg8_hit_at(px as int, py as int, segments@, k as int,
                            threshold as int));
                    }
                    return true;
                }
            }
            k = k + 1;
        }
        return false;
    }
    let chunks = n / 4;
    proof {
        vstd::arithmetic::div_mod::lemma_fundamental_div_mod(n as int, 4);
    }
    let mut k: usize = 0;
    while k < chunks
        invariant
            n == segments@.len(),
            chunks == segments@.len() / 4,
            4 * chunks <= n,
            !(segments@.len() >= 8 && segments@.len() % 8 == 0),
            k <= chunks,
            t_sq < 0x4000_0000_0000_0000,
            t == threshold as i64,
            t_sq == threshold * threshold,
            threshold <= 0x4000_0000,
            in_coord_range(px as int),
            in_coord_range(py as int),
            all_in_coord_range(segments@),
            forall|m: int|
                0 <= m < k ==> !seg4_hit_at(px as int, py as int, segments@, m, threshold as int),
        decreases chunks - k,
    {
        proof {
            vstd::arithmetic::div_mod::lemma_fundamental_div_mod(segments@.len() as int, 4);
        }
        let base = k * 4;
        let ax = segments[base];
        let ay = segments[base + 1];
        let bx = segments[base + 2];
        let by = segments[base + 3];
        let min_x = if ax <= bx { ax } else { bx };
        let max_x = if ax <= bx { bx } else { ax };
        let min_y = if ay <= by { ay } else { by };
        let max_y = if ay <= by { by } else { ay };
        if !(px < min_x - t || px > max_x + t || py < min_y - t || py > max_y + t) {
            if segment_within_sq(px, py, ax, ay, bx, by, t_sq) {
                proof {
                    assert(seg4_hit_at(px as int, py as int, segments@, k as int,
                        threshold as int));
                    assert(seg4_within_at(px as int, py as int, segments@, k as int,
                        threshold as int));
                }
                return true;
            }
        }
        k = k + 1;
    }
    proof {
        assert forall|m: int| 0 <= m < segments@.len() / 4 implies !seg4_within_at(
            px as int,
            py as int,
            segments@,
            m,
            threshold as int,
        ) by {
            if seg4_within_at(px as int, py as int, segments@, m, threshold as int) {
                lemma_derived_box_conservative(
                    px as int,
                    py as int,
                    segments@[4 * m] as int,
                    segments@[4 * m + 1] as int,
                    segments@[4 * m + 2] as int,
                    segments@[4 * m + 3] as int,
                    threshold as int,
                );
                assert(seg4_hit_at(px as int, py as int, segments@, m, threshold as int));
            }
        }
    }
    false
}

} // verus!
