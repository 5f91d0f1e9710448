//! Checks on computed results, exact over the grid: convexity and
//! containment for a hull, the empty-circumcircle property for a
//! triangulation, and doubled signed areas for comparing the two.

use vstd::prelude::*;

use crate::geo::Vec2;
use crate::geo::in_circle;
use crate::geo::in_circle_val;
use crate::geo::orient;
use crate::geo::orient_val;
use crate::geo::points_ok;
use crate::hull::hull_indices_ok;
use crate::tri::Triangle;
use crate::tri::triangulation_ok;

verus! {

/// The position k steps around a cycle of the given length, for k below
/// twice the length.
pub open spec fn cyc(len: int, k: int) -> int {
    if k >= len {
        k - len
    } else {
        k
    }
}

/// Consecutive boundary triples, taken cyclically, all turn strictly
/// counter-clockwise: the polygon is strictly convex.
pub open spec fn hull_convex_ccw(ps: Seq<Vec2>, h: Seq<i32>) -> bool {
    forall|k: int|
        0 <= k < h.len() ==> #[trigger] orient_val(
            ps[h[k] as int],
            ps[h[cyc(h.len() as int, k + 1)] as int],
            ps[h[cyc(h.len() as int, k + 2)] as int],
        ) > 0
}

/// Every input point lies on or to the left of every directed boundary
/// edge: inside or on the polygon.
pub open spec fn hull_contains_all(ps: Seq<Vec2>, h: Seq<i32>) -> bool {
    forall|k: int, p: int|
        0 <= k < h.len() && 0 <= p < ps.len() ==> #[trigger] orient_val(
            ps[h[k] as int],
            ps[h[cyc(h.len() as int, k + 1)] as int],
            ps[p],
        ) >= 0
}

/// Decides whether the index list traces a strictly convex counter-clockwise
/// polygon that contains every input point.
pub fn hull_is_convex(arr: &[Vec2], h: &Vec<i32>) -> (r: bool)
    requires
        points_ok(arr@),
        hull_indices_ok(arr@.len() as int, h@),
        h@.len() >= 3,
        h@.len() <= 0x7fffffff,
    ensures
        r == (hull_convex_ccw(arr@, h@) && hull_contains_all(arr@, h@)),
{
    let len = h.len();
    let n = arr.len();
    let mut k: usize = 0;
    while k < len
        invariant
            0 <= k <= len,
            len == h@.len(),
            len >= 3,
            len <= 0x7fffffff,
            n == arr@.len(),
            points_ok(arr@),
            hull_indices_ok(n as int, h@),
            forall|kk: int|
                0 <= kk < k ==> #[trigger] orient_val(
                    arr@[h@[kk] as int],
                    arr@[h@[cyc(len as int, kk + 1)] as int],
                    arr@[h@[cyc(len as int, kk + 2)] as int],
                ) > 0,
        decreases len - k,
    {
        let k1 = if k + 1 >= len {
            k + 1 - len
        } else {
            k + 1
        };
        let k2 = if k + 2 >= len {
            k + 2 - len
        } else {
            k + 2
        };
        let o = orient(arr[h[k] as usize], arr[h[k1] as usize], arr[h[k2] as usize]);
        if o <= 0 {
            proof {
                assert(k1 as int == cyc(len as int, k as int + 1));
                assert(k2 as int == cyc(len as int, k as int + 2));
                assert(orient_val(
                    arr@[h@[k as int] as int],
                    arr@[h@[cyc(len as int, k as int + 1)] as int],
                    arr@[h@[cyc(len as int, k as int + 2)] as int],
                ) <= 0);
                assert(!hull_convex_ccw(arr@, h@));
            }
            return false;
        }
        k = k + 1;
    }
    let mut k: usize = 0;
    while k < len
        invariant
            0 <= k <= len,
            len == h@.len(),
            len >= 3,
            len <= 0x7fffffff,
            n == arr@.len(),
            points_ok(arr@),
            hull_indices_ok(n as int, h@),
            hull_convex_ccw(arr@, h@),
            forall|kk: int, p: int|
                0 <= kk < k && 0 <= p < n ==> #[trigger] orient_val(
                    arr@[h@[kk] as int],
                    arr@[h@[cyc(len as int, kk + 1)] as int],
                    arr@[p],
                ) >= 0,
        decreases len - k,
    {
        let k1 = if k + 1 >= len {
            k + 1 - len
        } else {
            k + 1
        };
        let mut p: usize = 0;
        while p < n
            invariant
                0 <= p <= n,
                0 <= k < len,
                len == h@.len(),
                k1 == cyc(len as int, k + 1),
                n == arr@.len(),
                points_ok(arr@),
                hull_indices_ok(n as int, h@),
                forall|pp: int|
                    0 <= pp < p ==> #[trigger] orient_val(
                        arr@[h@[k as int] as int],
                        arr@[h@[k1 as int] as int],
                        arr@[pp],
                    ) >= 0,
            decreases n - p,
        {
            let o = orient(arr[h[k] as usize], arr[h[k1] as usize], arr[p]);
            if o < 0 {
                proof {
                    assert(orient_val(
                        arr@[h@[k as int] as int],
                        arr@[h@[cyc(len as int, k as int + 1)] as int],
                        arr@[p as int],
                    ) < 0);
                    assert(!hull_contains_all(arr@, h@));
                }
                return false;
            }
            p = p + 1;
        }
        proof {
            assert forall|pp: int| 0 <= pp < n implies #[trigger] orient_val(
                arr@[h@[k as int] as int],
                arr@[h@[cyc(len as int, k as int + 1)] as int],
                arr@[pp],
            ) >= 0 by {
                assert(orient_val(arr@[h@[k as int] as int], arr@[h@[k1 as int] as int], arr@[pp])
                    >= 0);
            }
        }
        k = k + 1;
    }
    true
}

/// No input point away from a triangle's own corners lies strictly inside
/// that triangle's circumcircle.
pub open spec fn delaunay_property(ps: Seq<Vec2>, ts: Seq<Triangle>) -> bool {
    forall|k: int, p: int|
        0 <= k < ts.len() && 0 <= p < ps.len() && p != ts[k].0 as int && p != ts[k].1 as int
            && p != ts[k].2 as int
            ==> #[trigger] in_circle_val(
            ps[ts[k].0 as int],
            ps[ts[k].1 as int],
            ps[ts[k].2 as int],
            ps[p],
        ) <= 0
}

/// Decides the empty-circumcircle property of a computed triangulation.
pub fn is_delaunay(arr: &[Vec2], ts: &Vec<Triangle>) -> (r: bool)
    requires
        points_ok(arr@),
        triangulation_ok(arr@, ts@),
        arr@.len() <= 0x7fffffff,
    ensures
        r == delaunay_property(arr@, ts@),
{
    let n = arr.len();
    let len = ts.len();
    let mut k: usize = 0;
    while k < len
        invariant
            0 <= k <= len,
            len == ts@.len(),
            n == arr@.len(),
            n <= 0x7fffffff,
            points_ok(arr@),
            triangulation_ok(arr@, ts@),
            forall|kk: int, p: int|
                0 <= kk < k && 0 <= p < n && p != ts@[kk].0 as int && p != ts@[kk].1 as int && p
                    != ts@[kk].2 as int
                    ==> #[trigger] in_circle_val(
                    arr@[ts@[kk].0 as int],
                    arr@[ts@[kk].1 as int],
                    arr@[ts@[kk].2 as int],
                    arr@[p],
                ) <= 0,
        decreases len - k,
    {
        let t = ts[k];
        let mut p: usize = 0;
        while p < n
            invariant
                0 <= p <= n,
                0 <= k < len,
                len == ts@.len(),
                t == ts@[k as int],
                n == arr@.len(),
                n <= 0x7fffffff,
                points_ok(arr@),
                triangulation_ok(arr@, ts@),
                forall|pp: int|
                    0 <= pp < p && pp != t.0 as int && pp != t.1 as int && pp != t.2 as int ==> #[trigger] in_circle_val(
                        arr@[t.0 as int],
                        arr@[t.1 as int],
                        arr@[t.2 as int],
                        arr@[pp],
                    ) <= 0,
            decreases n - p,
        {
            let pi = p as i32;
            if pi != t.0 && pi != t.1 && pi != t.2 {
                let ic = in_circle(
                    arr[t.0 as usize],
                    arr[t.1 as usize],
                    arr[t.2 as usize],
                    arr[p],
                );
                if ic > 0 {
                    proof {
                        assert(in_circle_val(
                            arr@[ts@[k as int].0 as int],
                            arr@[ts@[k as int].1 as int],
                            arr@[ts@[k as int].2 as int],
                            arr@[p as int],
                        ) > 0);
                        assert(!delaunay_property(arr@, ts@));
                    }
                    return false;
                }
            }
            p = p + 1;
        }
        proof {
            assert forall|pp: int|
                0 <= pp < n && pp != ts@[k as int].0 as int && pp != ts@[k as int].1 as int && pp
                    != ts@[k as int].2 as int implies in_circle_val(
                arr@[ts@[k as int].0 as int],
                arr@[ts@[k as int].1 as int],
                arr@[ts@[k as int].2 as int],
                arr@[pp],
            ) <= 0 by {
                assert(in_circle_val(arr@[t.0 as int], arr@[t.1 as int], arr@[t.2 as int], arr@[pp])
                    <= 0);
            }
        }
        k = k + 1;
    }
    true
}

/// Twice the signed area of the listed triangles, summed.
pub open spec fn tri_list_area2(ps: Seq<Vec2>, ts: Seq<Triangle>) -> int
    decreases ts.len(),
{
    if ts.len() == 0 {
        0
    } else {
        tri_list_area2(ps, ts.drop_last()) + orient_val(
            ps[ts.last().0 as int],
            ps[ts.last().1 as int],
            ps[ts.last().2 as int],
        )
    }
}

/// Twice the signed area of the polygon traced by the index list, as a fan
/// from its first vertex.
pub open spec fn fan_area2(ps: Seq<Vec2>, h: Seq<i32>) -> int
    decreases h.len(),
{
    if h.len() < 3 {
        0
    } else {
        fan_area2(ps, h.drop_last()) + orient_val(
            ps[h[0] as int],
            ps[h[h.len() - 2] as int],
            ps[h.last() as int],
        )
    }
}

/// Sums twice the signed area of every triangle of a triangulation.
pub fn triangulation_area2(arr: &[Vec2], ts: &Vec<Triangle>) -> (r: i128)
    requires
        points_ok(arr@),
        triangulation_ok(arr@, ts@),
        ts@.len() <= 0x7fffffff,
    ensures
        r == tri_list_area2(arr@, ts@),
{
    let len = ts.len();
    let mut acc: i128 = 0;
    let mut k: usize = 0;
    while k < len
        invariant
            0 <= k <= len,
            len == ts@.len(),
            len <= 0x7fffffff,
            points_ok(arr@),
            triangulation_ok(arr@, ts@),
            acc == tri_list_area2(arr@, ts@.subrange(0, k as int)),
            -(k as int) * 0x8000000000000000 <= acc <= (k as int) * 0x8000000000000000,
        decreases len - k,
    {
        let t = ts[k];
        let o = orient(arr[t.0 as usize], arr[t.1 as usize], arr[t.2 as usize]);
        acc = acc + (o as i128);
        proof {
            assert(ts@.subrange(0, k as int + 1).drop_last() =~= ts@.subrange(0, k as int));
            assert(ts@.subrange(0, k as int + 1).last() == ts@[k as int]);
        }
        k = k + 1;
    }
    proof {
        assert(ts@.subrange(0, len as int) =~= ts@);
    }
    acc
}

/// Sums twice the signed area of the polygon traced by a hull, fanned from
/// its first vertex.
pub fn hull_area2(arr: &[Vec2], h: &Vec<i32>) -> (r: i128)
    requires
        points_ok(arr@),
        hull_indices_ok(arr@.len() as int, h@),
        h@.len() <= 0x7fffffff,
    ensures
        r == fan_area2(arr@, h@),
{
    let len = h.len();
    if len < 3 {
        proof {
            assert(fan_area2(arr@, h@) == 0);
        }
        return 0;
    }
    let mut acc: i128 = 0;
    let mut k: usize = 2;
    while k < len
        invariant
            2 <= k <= len,
            len == h@.len(),
            len <= 0x7fffffff,
            3 <= len,
            points_ok(arr@),
            hull_indices_ok(arr@.len() as int, h@),
            acc == fan_area2(arr@, h@.subrange(0, k as int)),
            -(k as int) * 0x8000000000000000 <= acc <= (k as int) * 0x8000000000000000,
        decreases len - k,
    {
        let o = orient(arr[h[0] as usize], arr[h[k - 1] as usize], arr[h[k] as usize]);
        acc = acc + (o as i128);
        proof {
            assert(h@.subrange(0, k as int + 1).drop_last() =~= h@.subrange(0, k as int));
            assert(h@.subrange(0, k as int + 1).last() == h@[k as int]);
            assert(h@.subrange(0, k as int + 1)[0] == h@[0]);
            assert(h@.subrange(0, k as int + 1)[k - 1] == h@[k - 1]);
        }
        k = k + 1;
    }
    proof {
        assert(h@.subrange(0, len as int) =~= h@);
    }
    acc
}

} // verus!
