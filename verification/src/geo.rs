//! Shared geometric primitives: the grid point type, input validation, and
//! the exact orientation and in-circle predicates that both algorithms build
//! on.

use vstd::prelude::*;

verus! {

/// Largest coordinate magnitude accepted from callers. Keeping inputs on
/// this grid lets every orientation and in-circle determinant be evaluated
/// exactly in machine integers, so the predicates never suffer rounding.
pub const MAX_COORD: i64 = 16777216;

/// Magnitude up to which the orientation and in-circle predicates are
/// proved exact: four times the accepted input bound, headroom for callers
/// that form derived points.
pub const EXACT_COORD: i64 = 67108864;

/// A 2d point on the exact coordinate grid.
#[derive(Clone, Copy, Debug, PartialEq, Eq, Structural)]
pub struct Vec2 {
    pub x: i64,
    pub y: i64,
}

impl Vec2 {
    pub fn new(x: i64, y: i64) -> (r: Vec2)
        ensures
            r.x == x,
            r.y == y,
    {
        Vec2 { x, y }
    }
}

/// The failure condition of both algorithms: a coordinate outside the exact
/// grid, for which the predicates could not be evaluated exactly.
#[derive(Clone, Copy, Debug, PartialEq, Eq, Structural)]
pub enum GeomError {
    InvalidInput,
}

/// A point that callers may hand in: both coordinates on the grid.
pub open spec fn coord_ok(p: Vec2) -> bool {
    &&& -MAX_COORD <= p.x <= MAX_COORD
    &&& -MAX_COORD <= p.y <= MAX_COORD
}

/// Every point of the sequence is on the grid.
pub open spec fn points_ok(ps: Seq<Vec2>) -> bool {
    forall|i: int| 0 <= i < ps.len() ==> coord_ok(#[trigger] ps[i])
}

/// A point within the wider bound on which the predicates stay exact.
pub open spec fn exact_ok(p: Vec2) -> bool {
    &&& -EXACT_COORD <= p.x <= EXACT_COORD
    &&& -EXACT_COORD <= p.y <= EXACT_COORD
}

/// Twice the signed area of the triangle (a, b, c): positive iff the triple
/// turns counter-clockwise, zero iff the three points are collinear.
pub open spec fn orient_val(a: Vec2, b: Vec2, c: Vec2) -> int {
    (b.x - a.x) * (c.y - a.y) - (b.y - a.y) * (c.x - a.x)
}

/// The in-circle determinant: for a counter-clockwise triangle (a, b, c) it
/// is positive iff d lies strictly inside the circumcircle of the triangle
/// and zero iff d lies on that circle.
pub open spec fn in_circle_val(a: Vec2, b: Vec2, c: Vec2, d: Vec2) -> int {
    let adx = a.x - d.x;
    let ady = a.y - d.y;
    let bdx = b.x - d.x;
    let bdy = b.y - d.y;
    let cdx = c.x - d.x;
    let cdy = c.y - d.y;
    (adx * adx + ady * ady) * (bdx * cdy - cdx * bdy) - (bdx * bdx + bdy * bdy) * (adx * cdy - cdx
        * ady) + (cdx * cdx + cdy * cdy) * (adx * bdy - bdx * ady)
}

/// Every triple of input points is collinear.
pub open spec fn all_collinear(ps: Seq<Vec2>) -> bool {
    forall|i: int, j: int, k: int|
        0 <= i < ps.len() && 0 <= j < ps.len() && 0 <= k < ps.len() ==> #[trigger] orient_val(
            ps[i],
            ps[j],
            ps[k],
        ) == 0
}

/// Lexicographic order on coordinates: by x, then by y.
pub open spec fn lex_lt(p: Vec2, q: Vec2) -> bool {
    p.x < q.x || (p.x == q.x && p.y < q.y)
}

/// Bound on a product from bounds on its factors.
pub(crate) proof fn lemma_mul_bound(a: int, b: int, m: int, n: int)
    by (nonlinear_arith)
    requires
        -m <= a <= m,
        -n <= b <= n,
        0 <= m,
        0 <= n,
    ensures
        -(m * n) <= a * b <= m * n,
{
}

/// Exact orientation predicate, evaluated without overflow.
pub fn orient(a: Vec2, b: Vec2, c: Vec2) -> (r: i64)
    requires
        exact_ok(a),
        exact_ok(b),
        exact_ok(c),
    ensures
        r as int == orient_val(a, b, c),
{
    let bax = b.x - a.x;
    let cay = c.y - a.y;
    let bay = b.y - a.y;
    let cax = c.x - a.x;
    proof {
        lemma_mul_bound(bax as int, cay as int, 0x8000000, 0x8000000);
        lemma_mul_bound(bay as int, cax as int, 0x8000000, 0x8000000);
    }
    bax * cay - bay * cax
}

/// Exact in-circle predicate, evaluated in 128-bit integers without
/// overflow.
pub fn in_circle(a: Vec2, b: Vec2, c: Vec2, d: Vec2) -> (r: i128)
    requires
        exact_ok(a),
        exact_ok(b),
        exact_ok(c),
        exact_ok(d),
    ensures
        r as int == in_circle_val(a, b, c, d),
{
    let adx = (a.x - d.x) as i128;
    let ady = (a.y - d.y) as i128;
    let bdx = (b.x - d.x) as i128;
    let bdy = (b.y - d.y) as i128;
    let cdx = (c.x - d.x) as i128;
    let cdy = (c.y - d.y) as i128;
    proof {
        lemma_mul_bound(adx as int, adx as int, 0x8000000, 0x8000000);
        lemma_mul_bound(ady as int, ady as int, 0x8000000, 0x8000000);
        lemma_mul_bound(bdx as int, bdx as int, 0x8000000, 0x8000000);
        lemma_mul_bound(bdy as int, bdy as int, 0x8000000, 0x8000000);
        lemma_mul_bound(cdx as int, cdx as int, 0x8000000, 0x8000000);
        lemma_mul_bound(cdy as int, cdy as int, 0x8000000, 0x8000000);
        lemma_mul_bound(bdx as int, cdy as int, 0x8000000, 0x8000000);
        lemma_mul_bound(cdx as int, bdy as int, 0x8000000, 0x8000000);
        lemma_mul_bound(adx as int, cdy as int, 0x8000000, 0x8000000);
        lemma_mul_bound(cdx as int, ady as int, 0x8000000, 0x8000000);
        lemma_mul_bound(adx as int, bdy as int, 0x8000000, 0x8000000);
        lemma_mul_bound(bdx as int, ady as int, 0x8000000, 0x8000000);
    }
    let aa = adx * adx + ady * ady;
    let bb = bdx * bdx + bdy * bdy;
    let cc = cdx * cdx + cdy * cdy;
    let det_b = bdx * cdy - cdx * bdy;
    let det_a = adx * cdy - cdx * ady;
    let det_c = adx * bdy - bdx * ady;
    proof {
        lemma_mul_bound(aa as int, det_b as int, 0x80000000000000, 0x80000000000000);
        lemma_mul_bound(bb as int, det_a as int, 0x80000000000000, 0x80000000000000);
        lemma_mul_bound(cc as int, det_c as int, 0x80000000000000, 0x80000000000000);
    }
    aa * det_b - bb * det_a + cc * det_c
}

/// Exact lexicographic comparison.
pub fn lex_less(p: Vec2, q: Vec2) -> (r: bool)
    ensures
        r == lex_lt(p, q),
{
    p.x < q.x || (p.x == q.x && p.y < q.y)
}

/// Reports whether every point of the slice is on the accepted grid.
pub fn points_valid(arr: &[Vec2]) -> (r: bool)
    ensures
        r == points_ok(arr@),
{
    let n = arr.len();
    let mut i: usize = 0;
    while i < n
        invariant
            0 <= i <= n,
            n == arr@.len(),
            forall|j: int| 0 <= j < i ==> coord_ok(#[trigger] arr@[j]),
        decreases n - i,
    {
        let p = arr[i];
        if !(-MAX_COORD <= p.x && p.x <= MAX_COORD && -MAX_COORD <= p.y && p.y <= MAX_COORD) {
            return false;
        }
        i = i + 1;
    }
    true
}

} // verus!
