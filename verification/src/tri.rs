//! Delaunay triangulation of a planar point set by incremental insertion
//! (Bowyer-Watson): points are inserted in input order into a triangulation
//! of an enclosing triangle whose three guard vertices lie at infinity,
//! one per fixed direction. Every triangle whose circumcircle reaches the
//! new point is removed and the cavity is re-triangulated as a fan around
//! the new point. A circumcircle with a guard corner degenerates to a line
//! through the real corners, so the test becomes an exact half-plane test
//! and no real circumcircle, however large, can ever swallow a guard:
//! flat, wide inputs triangulate like any other. Cocircular ties
//! re-triangulate towards the newest point, which fixes the output
//! deterministically. Coincident duplicate points are skipped, keeping the
//! first occurrence. Guard-cornered and degenerate triangles are dropped
//! at the end.

use vstd::prelude::*;

use crate::geo::GeomError;
use crate::geo::Vec2;
use crate::geo::all_collinear;
use crate::geo::coord_ok;
use crate::geo::in_circle;
use crate::geo::in_circle_val;
use crate::geo::lemma_mul_bound;
use crate::geo::orient;
use crate::geo::orient_val;
use crate::geo::points_ok;
use crate::geo::points_valid;

verus! {

/// A triangle represented by 3 indices into the input points.
#[derive(Clone, Copy, Debug, PartialEq, Eq, Structural)]
pub struct Triangle(pub i32, pub i32, pub i32);

/// The triangle invariant over its point set: the indices name input points
/// whose triple turns strictly counter-clockwise, so they are pairwise
/// distinct and never collinear.
pub open spec fn triangle_ok(ps: Seq<Vec2>, t: Triangle) -> bool {
    &&& 0 <= t.0 < ps.len()
    &&& 0 <= t.1 < ps.len()
    &&& 0 <= t.2 < ps.len()
    &&& orient_val(ps[t.0 as int], ps[t.1 as int], ps[t.2 as int]) > 0
}

/// Every triangle of the sequence satisfies the triangle invariant.
pub open spec fn triangulation_ok(ps: Seq<Vec2>, ts: Seq<Triangle>) -> bool {
    forall|k: int| 0 <= k < ts.len() ==> triangle_ok(ps, #[trigger] ts[k])
}

/// A working triangle keeps its corner indices below the given bound.
spec fn tri_wf(bound: int, t: (usize, usize, usize)) -> bool {
    t.0 < bound && t.1 < bound && t.2 < bound
}

/// All working triangles keep their corner indices below the given bound.
spec fn tris_wf(bound: int, ws: Seq<(usize, usize, usize)>) -> bool {
    forall|k: int| 0 <= k < ws.len() ==> tri_wf(bound, #[trigger] ws[k])
}

/// The fixed direction of each of the three guard vertices at infinity:
/// down-left, down-right, straight up. Guard k is addressed by the index
/// k places past the input points.
pub open spec fn guard_dir(k: int) -> (int, int) {
    if k == 0 {
        (-1, -1)
    } else if k == 1 {
        (1, -1)
    } else {
        (0, 1)
    }
}

/// The squared length of a guard direction.
pub open spec fn guard_norm(k: int) -> int {
    if k == 2 {
        1
    } else {
        2
    }
}

/// The conflict test for a wedge triangle: one real corner a and two guard
/// corners receding to infinity along directions i and j at equal rate.
/// The in-circle determinant is then a cubic in the guards' distance whose
/// leading coefficient is the linear form below; the circumcircle
/// degenerates to a line through a, and the test keeps its closed side.
pub open spec fn two_guard_reach(a: Vec2, i: int, j: int, d: Vec2) -> bool {
    let gi = guard_dir(i);
    let gj = guard_dir(j);
    let p = gi.1 * guard_norm(j) - guard_norm(i) * gj.1;
    let q = gi.0 * guard_norm(j) - guard_norm(i) * gj.0;
    (a.x - d.x) * p - (a.y - d.y) * q >= 0
}

/// Conflict of a working triangle with a newly inserted point: the point
/// lies inside or on the triangle's circumcircle, guard corners taken at
/// infinity. For an all-real triangle this is the exact in-circle test;
/// with one guard the circle degenerates to the line through the two real
/// corners, whose guard side is kept closed; with two guards to a line
/// through the single real corner; the initial all-guard triangle reaches
/// every point. Ties land in the cavity, matching the closed test on real
/// circles.
pub open spec fn reaches_val(ps: Seq<Vec2>, t: (usize, usize, usize), d: Vec2) -> bool {
    let n = ps.len();
    if t.0 < n && t.1 < n && t.2 < n {
        in_circle_val(ps[t.0 as int], ps[t.1 as int], ps[t.2 as int], d) >= 0
    } else if t.0 >= n && t.1 >= n && t.2 >= n {
        true
    } else if t.1 >= n && t.2 >= n {
        two_guard_reach(ps[t.0 as int], t.1 - n, t.2 - n, d)
    } else if t.2 >= n && t.0 >= n {
        two_guard_reach(ps[t.1 as int], t.2 - n, t.0 - n, d)
    } else if t.0 >= n && t.1 >= n {
        two_guard_reach(ps[t.2 as int], t.0 - n, t.1 - n, d)
    } else if t.0 >= n {
        orient_val(ps[t.1 as int], ps[t.2 as int], d) >= 0
    } else if t.1 >= n {
        orient_val(ps[t.2 as int], ps[t.0 as int], d) >= 0
    } else {
        orient_val(ps[t.0 as int], ps[t.1 as int], d) >= 0
    }
}

/// The point whose index duplicates an earlier point's coordinates.
pub open spec fn dup_before(ps: Seq<Vec2>, i: int) -> bool {
    exists|q: int| 0 <= q < i && ps[q] == ps[i]
}

/// The working triangles whose circumcircle reaches p, kept in order.
pub open spec fn bad_of(ps: Seq<Vec2>, ws: Seq<(usize, usize, usize)>, p: Vec2) -> Seq<
    (usize, usize, usize),
>
    decreases ws.len(),
{
    if ws.len() == 0 {
        Seq::empty()
    } else {
        let rest = bad_of(ps, ws.drop_last(), p);
        let t = ws.last();
        if reaches_val(ps, t, p) {
            rest.push(t)
        } else {
            rest
        }
    }
}

/// The working triangles whose circumcircle misses p, kept in order.
pub open spec fn good_of(ps: Seq<Vec2>, ws: Seq<(usize, usize, usize)>, p: Vec2) -> Seq<
    (usize, usize, usize),
>
    decreases ws.len(),
{
    if ws.len() == 0 {
        Seq::empty()
    } else {
        let rest = good_of(ps, ws.drop_last(), p);
        let t = ws.last();
        if !reaches_val(ps, t, p) {
            rest.push(t)
        } else {
            rest
        }
    }
}

/// The triangle has the undirected edge (a, b).
pub open spec fn has_edge(t: (usize, usize, usize), a: usize, b: usize) -> bool {
    ||| (t.0 == a && t.1 == b)
    ||| (t.1 == a && t.2 == b)
    ||| (t.2 == a && t.0 == b)
    ||| (t.0 == b && t.1 == a)
    ||| (t.1 == b && t.2 == a)
    ||| (t.2 == b && t.0 == a)
}

/// Some other cavity triangle shares the edge.
pub open spec fn edge_shared(bad: Seq<(usize, usize, usize)>, at: int, a: usize, b: usize) -> bool {
    exists|c: int| 0 <= c < bad.len() && c != at && has_edge(#[trigger] bad[c], a, b)
}

/// The directed edges of the first m cavity triangles that no other cavity
/// triangle shares: the boundary of the cavity.
pub open spec fn boundary_upto(bad: Seq<(usize, usize, usize)>, m: int) -> Seq<(usize, usize)>
    decreases m,
{
    if m <= 0 {
        Seq::empty()
    } else {
        let pre = boundary_upto(bad, m - 1);
        let t = bad[m - 1];
        let w0 = if !edge_shared(bad, m - 1, t.0, t.1) {
            pre.push((t.0, t.1))
        } else {
            pre
        };
        let w1 = if !edge_shared(bad, m - 1, t.1, t.2) {
            w0.push((t.1, t.2))
        } else {
            w0
        };
        if !edge_shared(bad, m - 1, t.2, t.0) {
            w1.push((t.2, t.0))
        } else {
            w1
        }
    }
}

/// One insertion: remove the cavity around the new point and fan the point
/// to the cavity's boundary.
pub open spec fn bw_insert(ps: Seq<Vec2>, ws: Seq<(usize, usize, usize)>, pi: usize) -> Seq<
    (usize, usize, usize),
> {
    let p = ps[pi as int];
    let bad = bad_of(ps, ws, p);
    let boundary = boundary_upto(bad, bad.len() as int);
    good_of(ps, ws, p) + Seq::new(boundary.len(), |k: int| (pi, boundary[k].0, boundary[k].1))
}

/// The working triangulation after the first m input points: the enclosing
/// triangle, then one insertion per distinct point, in input order.
pub open spec fn bw_fold(ps: Seq<Vec2>, m: int) -> Seq<(usize, usize, usize)>
    decreases m,
{
    if m <= 0 {
        seq![(ps.len() as usize, (ps.len() + 1) as usize, (ps.len() + 2) as usize)]
    } else if dup_before(ps, m - 1) {
        bw_fold(ps, m - 1)
    } else {
        bw_insert(ps, bw_fold(ps, m - 1), (m - 1) as usize)
    }
}

/// The real, strictly counter-clockwise triangles among the first m working
/// triangles, in order.
pub open spec fn keep_real(ps: Seq<Vec2>, ws: Seq<(usize, usize, usize)>, m: int) -> Seq<Triangle>
    decreases m,
{
    if m <= 0 {
        Seq::empty()
    } else {
        let pre = keep_real(ps, ws, m - 1);
        let t = ws[m - 1];
        if t.0 < ps.len() && t.1 < ps.len() && t.2 < ps.len() && orient_val(
            ps[t.0 as int],
            ps[t.1 as int],
            ps[t.2 as int],
        ) > 0 {
            pre.push(Triangle(t.0 as i32, t.1 as i32, t.2 as i32))
        } else {
            pre
        }
    }
}

/// The Delaunay triangulation as a mathematical function of the input
/// alone: two equal inputs always have equal triangulations.
pub open spec fn delaunay_of(ps: Seq<Vec2>) -> Seq<Triangle> {
    let ws = bw_fold(ps, ps.len() as int);
    keep_real(ps, ws, ws.len() as int)
}

/// Evaluates the wedge conflict test exactly; the coefficients are tiny,
/// so 64-bit arithmetic never overflows.
fn two_guard_reaches(a: Vec2, i: usize, j: usize, d: Vec2) -> (r: bool)
    requires
        coord_ok(a),
        coord_ok(d),
        i < 3,
        j < 3,
    ensures
        r == two_guard_reach(a, i as int, j as int, d),
{
    let gi: (i64, i64) = if i == 0 {
        (-1, -1)
    } else if i == 1 {
        (1, -1)
    } else {
        (0, 1)
    };
    let gj: (i64, i64) = if j == 0 {
        (-1, -1)
    } else if j == 1 {
        (1, -1)
    } else {
        (0, 1)
    };
    let ni: i64 = if i == 2 {
        1
    } else {
        2
    };
    let nj: i64 = if j == 2 {
        1
    } else {
        2
    };
    proof {
        lemma_mul_bound(gi.1 as int, nj as int, 1, 2);
        lemma_mul_bound(ni as int, gj.1 as int, 2, 1);
        lemma_mul_bound(gi.0 as int, nj as int, 1, 2);
        lemma_mul_bound(ni as int, gj.0 as int, 2, 1);
    }
    let p = gi.1 * nj - ni * gj.1;
    let q = gi.0 * nj - ni * gj.0;
    proof {
        lemma_mul_bound((a.x - d.x) as int, p as int, 0x2000000, 4);
        lemma_mul_bound((a.y - d.y) as int, q as int, 0x2000000, 4);
    }
    (a.x - d.x) * p - (a.y - d.y) * q >= 0
}

/// Evaluates the conflict of a working triangle with an inserted point.
fn reaches(arr: &[Vec2], tr: (usize, usize, usize), d: Vec2) -> (r: bool)
    requires
        points_ok(arr@),
        coord_ok(d),
        tri_wf(arr@.len() as int + 3, tr),
    ensures
        r == reaches_val(arr@, tr, d),
{
    let n = arr.len();
    if tr.0 < n && tr.1 < n && tr.2 < n {
        in_circle(arr[tr.0], arr[tr.1], arr[tr.2], d) >= 0
    } else if tr.0 >= n && tr.1 >= n && tr.2 >= n {
        true
    } else if tr.1 >= n && tr.2 >= n {
        two_guard_reaches(arr[tr.0], tr.1 - n, tr.2 - n, d)
    } else if tr.2 >= n && tr.0 >= n {
        two_guard_reaches(arr[tr.1], tr.2 - n, tr.0 - n, d)
    } else if tr.0 >= n && tr.1 >= n {
        two_guard_reaches(arr[tr.2], tr.0 - n, tr.1 - n, d)
    } else if tr.0 >= n {
        orient(arr[tr.1], arr[tr.2], d) >= 0
    } else if tr.1 >= n {
        orient(arr[tr.2], arr[tr.0], d) >= 0
    } else {
        orient(arr[tr.0], arr[tr.1], d) >= 0
    }
}

/// Reports whether the triangle has the undirected edge (a, b).
fn tri_has_edge(tr: (usize, usize, usize), a: usize, b: usize) -> (r: bool)
    ensures
        r == has_edge(tr, a, b),
{
    (tr.0 == a && tr.1 == b) || (tr.1 == a && tr.2 == b) || (tr.2 == a && tr.0 == b) || (tr.0 == b
        && tr.1 == a) || (tr.1 == b && tr.2 == a) || (tr.2 == b && tr.0 == a)
}

/// Computes the Delaunay triangulation of the input points.
///
/// The result lists index triples into the input; every listed triangle is
/// strictly counter-clockwise, so fewer than three distinct points, or an
/// entirely collinear input, yield no triangle at all. The guard corners
/// lie at infinity, beyond every real circumcircle, so an input with three
/// or more distinct points not all collinear gets its hull triangulated,
/// however flat or wide it sits on the grid. An input with a coordinate
/// off the exact grid is rejected whole.
pub fn delaunay_2(arr: &[Vec2]) -> (r: Result<Vec<Triangle>, GeomError>)
    requires
        arr@.len() <= 0x7fffffff,
    ensures
        r is Err <==> !points_ok(arr@),
        r is Err ==> r->Err_0 == GeomError::InvalidInput,
        r is Ok ==> triangulation_ok(arr@, r->Ok_0@),
        r is Ok ==> r->Ok_0@ == delaunay_of(arr@),
{
    if !points_valid(arr) {
        return Err(GeomError::InvalidInput);
    }
    let n = arr.len();
    let ghost nb = arr@.len() + 3;
    let mut work: Vec<(usize, usize, usize)> = Vec::new();
    work.push((n, n + 1, n + 2));
    proof {
        assert(work@ =~= bw_fold(arr@, 0));
    }
    let mut pi: usize = 0;
    while pi < n
        invariant
            0 <= pi <= n,
            n == arr@.len(),
            n <= 0x7fffffff,
            nb == arr@.len() + 3,
            points_ok(arr@),
            tris_wf(nb as int, work@),
            work@ == bw_fold(arr@, pi as int),
        decreases n - pi,
    {
        let p = arr[pi];
        let mut dup = false;
        let mut q: usize = 0;
        while q < pi
            invariant
                0 <= q <= pi,
                pi < n,
                n == arr@.len(),
                p == arr@[pi as int],
                dup == (exists|qq: int| 0 <= qq < q && arr@[qq] == arr@[pi as int]),
            decreases pi - q,
        {
            if arr[q].x == p.x && arr[q].y == p.y {
                dup = true;
            }
            q = q + 1;
        }
        proof {
            assert(dup == dup_before(arr@, pi as int));
        }
        if !dup {
            let ghost work_entry = work@;
            let mut bad: Vec<(usize, usize, usize)> = Vec::new();
            let mut good: Vec<(usize, usize, usize)> = Vec::new();
            let mut t: usize = 0;
            while t < work.len()
                invariant
                    0 <= t <= work@.len(),
                    pi < n,
                    n == arr@.len(),
                    n <= 0x7fffffff,
                    nb == arr@.len() + 3,
                    points_ok(arr@),
                    p == arr@[pi as int],
                    tris_wf(nb as int, work@),
                    tris_wf(nb as int, bad@),
                    tris_wf(nb as int, good@),
                    bad@ == bad_of(arr@, work@.take(t as int), p),
                    good@ == good_of(arr@, work@.take(t as int), p),
                decreases work@.len() - t,
            {
                let tr = work[t];
                if reaches(arr, tr, p) {
                    bad.push(tr);
                } else {
                    good.push(tr);
                }
                proof {
                    assert(work@.take(t as int + 1).drop_last() =~= work@.take(t as int));
                    assert(work@.take(t as int + 1).last() == work@[t as int]);
                }
                t = t + 1;
            }
            proof {
                assert(work@.take(work@.len() as int) =~= work@);
            }
            let mut boundary: Vec<(usize, usize)> = Vec::new();
            let mut b: usize = 0;
            while b < bad.len()
                invariant
                    0 <= b <= bad@.len(),
                    nb == arr@.len() + 3,
                    tris_wf(nb as int, bad@),
                    boundary@ == boundary_upto(bad@, b as int),
                    forall|k: int|
                        0 <= k < boundary@.len() ==> (#[trigger] boundary@[k]).0 < nb && boundary@[
                            k
                        ].1 < nb,
                decreases bad@.len() - b,
            {
                let tr = bad[b];
                let mut s0 = false;
                let mut s1 = false;
                let mut s2 = false;
                let mut c: usize = 0;
                while c < bad.len()
                    invariant
                        0 <= c <= bad@.len(),
                        b < bad@.len(),
                        tr == bad@[b as int],
                        s0 == (exists|cc: int|
                            0 <= cc < c && cc != b && has_edge(#[trigger] bad@[cc], tr.0, tr.1)),
                        s1 == (exists|cc: int|
                            0 <= cc < c && cc != b && has_edge(#[trigger] bad@[cc], tr.1, tr.2)),
                        s2 == (exists|cc: int|
                            0 <= cc < c && cc != b && has_edge(#[trigger] bad@[cc], tr.2, tr.0)),
                    decreases bad@.len() - c,
                {
                    if c != b {
                        let other = bad[c];
                        if tri_has_edge(other, tr.0, tr.1) {
                            s0 = true;
                        }
                        if tri_has_edge(other, tr.1, tr.2) {
                            s1 = true;
                        }
                        if tri_has_edge(other, tr.2, tr.0) {
                            s2 = true;
                        }
                    }
                    c = c + 1;
                }
                proof {
                    assert(s0 == edge_shared(bad@, b as int, tr.0, tr.1));
                    assert(s1 == edge_shared(bad@, b as int, tr.1, tr.2));
                    assert(s2 == edge_shared(bad@, b as int, tr.2, tr.0));
                }
                if !s0 {
                    boundary.push((tr.0, tr.1));
                }
                if !s1 {
                    boundary.push((tr.1, tr.2));
                }
                if !s2 {
                    boundary.push((tr.2, tr.0));
                }
                proof {
                    assert(boundary@ == boundary_upto(bad@, b as int + 1));
                }
                b = b + 1;
            }
            work = good;
            let ghost fan_base = work@;
            let mut e: usize = 0;
            while e < boundary.len()
                invariant
                    0 <= e <= boundary@.len(),
                    pi < n,
                    n == arr@.len(),
                    nb == arr@.len() + 3,
                    tris_wf(nb as int, work@),
                    work@ == fan_base + Seq::new(
                        e as nat,
                        |k: int| (pi, boundary@[k].0, boundary@[k].1),
                    ),
                    forall|k: int|
                        0 <= k < boundary@.len() ==> (#[trigger] boundary@[k]).0 < nb && boundary@[
                            k
                        ].1 < nb,
                decreases boundary@.len() - e,
            {
                let ed = boundary[e];
                work.push((pi, ed.0, ed.1));
                proof {
                    assert(work@ =~= fan_base + Seq::new(
                        (e + 1) as nat,
                        |k: int| (pi, boundary@[k].0, boundary@[k].1),
                    ));
                }
                e = e + 1;
            }
            proof {
                assert(boundary@ == boundary_upto(
                    bad_of(arr@, work_entry, p),
                    bad_of(arr@, work_entry, p).len() as int,
                ));
                assert(work@ =~= bw_insert(arr@, work_entry, pi));
                assert(work@ == bw_fold(arr@, pi as int + 1));
            }
        } else {
            proof {
                assert(work@ == bw_fold(arr@, pi as int + 1));
            }
        }
        pi = pi + 1;
    }
    let mut out: Vec<Triangle> = Vec::new();
    let mut t: usize = 0;
    while t < work.len()
        invariant
            0 <= t <= work@.len(),
            n == arr@.len(),
            n <= 0x7fffffff,
            points_ok(arr@),
            tris_wf((arr@.len() + 3) as int, work@),
            triangulation_ok(arr@, out@),
            work@ == bw_fold(arr@, n as int),
            out@ == keep_real(arr@, work@, t as int),
        decreases work@.len() - t,
    {
        let tr = work[t];
        if tr.0 < n && tr.1 < n && tr.2 < n {
            let o = orient(arr[tr.0], arr[tr.1], arr[tr.2]);
            if o > 0 {
                out.push(Triangle(tr.0 as i32, tr.1 as i32, tr.2 as i32));
            }
        }
        proof {
            assert(out@ == keep_real(arr@, work@, t as int + 1));
        }
        t = t + 1;
    }
    proof {
        assert(out@ == delaunay_of(arr@));
    }
    Ok(out)
}

/// A cross product with a repeated point vanishes.
proof fn lemma_cross_degenerate(ax: int, ay: int, bx: int, by: int, cx: int, cy: int)
    by (nonlinear_arith)
    requires
        (ax == bx && ay == by) || (bx == cx && by == cy) || (cx == ax && cy == ay),
    ensures
        (bx - ax) * (cy - ay) - (by - ay) * (cx - ax) == 0,
{
}

/// With fewer than three input points, or an entirely collinear input, no
/// index triple can satisfy the triangle invariant, so any triangulation of
/// such an input is empty.
pub proof fn lemma_degenerate_triangulation_is_empty(ps: Seq<Vec2>, ts: Seq<Triangle>)
    requires
        triangulation_ok(ps, ts),
        ps.len() < 3 || all_collinear(ps),
    ensures
        ts.len() == 0,
{
    if ts.len() > 0 {
        let t = ts[0];
        assert(triangle_ok(ps, t));
        if ps.len() < 3 {
            // three indices below 3 - 1 cannot be pairwise distinct, and a
            // repeated corner makes the orientation vanish
            if t.0 == t.1 || t.1 == t.2 || t.2 == t.0 {
                let a = ps[t.0 as int];
                let b = ps[t.1 as int];
                let c = ps[t.2 as int];
                lemma_cross_degenerate(
                    a.x as int,
                    a.y as int,
                    b.x as int,
                    b.y as int,
                    c.x as int,
                    c.y as int,
                );
                assert(orient_val(a, b, c) == 0);
            }
            assert(false);
        } else {
            assert(orient_val(ps[t.0 as int], ps[t.1 as int], ps[t.2 as int]) == 0);
            assert(false);
        }
    }
}

} // verus!
