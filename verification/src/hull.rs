//! Convex hull of a planar point set by the monotone chain method: sort the
//! distinct coordinates lexicographically, then build the lower and upper
//! boundary chains with an exact orientation test. Strictly collinear points
//! in the interior of a boundary edge are excluded, so only extreme vertices
//! remain.

use vstd::prelude::*;

use crate::geo::GeomError;
use crate::geo::all_collinear;
use crate::geo::Vec2;
use crate::geo::lex_less;
use crate::geo::lex_lt;
use crate::geo::orient;
use crate::geo::orient_val;
use crate::geo::points_ok;
use crate::geo::points_valid;

verus! {

/// Every entry of the index sequence names an input point.
pub open spec fn hull_indices_ok(n: int, h: Seq<i32>) -> bool {
    forall|k: int| 0 <= k < h.len() ==> 0 <= #[trigger] h[k] < n
}

/// Positions into the input, listed in strictly increasing lexicographic
/// coordinate order.
spec fn lex_sorted(ps: Seq<Vec2>, order: Seq<usize>) -> bool {
    &&& forall|k: int| 0 <= k < order.len() ==> #[trigger] order[k] < ps.len()
    &&& forall|j: int, k: int|
        0 <= j < k < order.len() ==> lex_lt(ps[order[j] as int], ps[order[k] as int])
}

/// Positions into the input, listed in strictly decreasing lexicographic
/// coordinate order.
spec fn lex_sorted_rev(ps: Seq<Vec2>, order: Seq<usize>) -> bool {
    &&& forall|k: int| 0 <= k < order.len() ==> #[trigger] order[k] < ps.len()
    &&& forall|j: int, k: int|
        0 <= j < k < order.len() ==> lex_lt(ps[order[k] as int], ps[order[j] as int])
}

/// Inserts point index i into an order sorted by coordinate: before the
/// first entry it does not follow, or not at all where its coordinates are
/// already represented.
pub open spec fn ins_sorted(ps: Seq<Vec2>, s: Seq<usize>, i: usize) -> Seq<usize>
    decreases s.len(),
{
    if s.len() == 0 {
        seq![i]
    } else if lex_lt(ps[s[0] as int], ps[i as int]) {
        seq![s[0]] + ins_sorted(ps, s.drop_first(), i)
    } else if ps[s[0] as int] == ps[i as int] {
        s
    } else {
        seq![i] + s
    }
}

/// The coordinate order of the first m point indices, built by repeated
/// insertion: sorted lexicographically, first occurrence kept on ties.
pub open spec fn sorted_dedup(ps: Seq<Vec2>, m: int) -> Seq<usize>
    decreases m,
{
    if m <= 0 {
        Seq::empty()
    } else {
        ins_sorted(ps, sorted_dedup(ps, m - 1), (m - 1) as usize)
    }
}

/// Relates the insertion spec to the found insertion position: the first
/// position whose entry does not sort strictly before the new point.
proof fn lemma_ins_sorted_at(ps: Seq<Vec2>, s: Seq<usize>, i: usize, pos: int)
    requires
        0 <= pos <= s.len(),
        forall|k: int| 0 <= k < pos ==> lex_lt(ps[#[trigger] s[k] as int], ps[i as int]),
        pos < s.len() ==> !lex_lt(ps[s[pos] as int], ps[i as int]),
    ensures
        pos < s.len() && ps[s[pos] as int] == ps[i as int] ==> ins_sorted(ps, s, i) == s,
        !(pos < s.len() && ps[s[pos] as int] == ps[i as int]) ==> ins_sorted(ps, s, i) == s.insert(
            pos,
            i,
        ),
    decreases s.len(),
{
    if s.len() == 0 {
        assert(s.insert(0, i) =~= seq![i]);
    } else if lex_lt(ps[s[0] as int], ps[i as int]) {
        assert(pos >= 1);
        let d = s.drop_first();
        assert(forall|k: int| 0 <= k < d.len() ==> #[trigger] d[k] == s[k + 1]);
        lemma_ins_sorted_at(ps, d, i, pos - 1);
        if pos < s.len() && ps[s[pos] as int] == ps[i as int] {
            assert(ins_sorted(ps, s, i) =~= seq![s[0]] + d);
            assert(seq![s[0]] + d =~= s);
        } else {
            assert(ins_sorted(ps, s, i) =~= seq![s[0]] + d.insert(pos - 1, i));
            assert(seq![s[0]] + d.insert(pos - 1, i) =~= s.insert(pos, i));
        }
    } else {
        assert(pos == 0);
        if ps[s[0] as int] == ps[i as int] {
        } else {
            assert(ins_sorted(ps, s, i) =~= seq![i] + s);
            assert(seq![i] + s =~= s.insert(0, i));
        }
    }
}

/// Sorts the point indices by coordinate, lexicographically by x then y,
/// keeping one representative per distinct coordinate: the first occurrence
/// in input order.
fn sorted_order(arr: &[Vec2]) -> (order: Vec<usize>)
    ensures
        lex_sorted(arr@, order@),
        arr@.len() > 0 ==> order@.len() > 0,
        order@ == sorted_dedup(arr@, arr@.len() as int),
{
    let n = arr.len();
    let mut order: Vec<usize> = Vec::new();
    let mut i: usize = 0;
    while i < n
        invariant
            0 <= i <= n,
            n == arr@.len(),
            lex_sorted(arr@, order@),
            i > 0 ==> order@.len() > 0,
            order@ == sorted_dedup(arr@, i as int),
        decreases n - i,
    {
        let p = arr[i];
        let mut pos: usize = 0;
        while pos < order.len() && lex_less(arr[order[pos]], p)
            invariant
                0 <= pos <= order@.len(),
                n == arr@.len(),
                0 <= i < n,
                p == arr@[i as int],
                lex_sorted(arr@, order@),
                forall|k: int|
                    0 <= k < pos ==> lex_lt(arr@[#[trigger] order@[k] as int], arr@[i as int]),
            decreases order@.len() - pos,
        {
            pos = pos + 1;
        }
        let dup = pos < order.len() && arr[order[pos]].x == p.x && arr[order[pos]].y == p.y;
        if !dup {
            let ghost old_order = order@;
            order.insert(pos, i);
            proof {
                old_order.insert_ensures(pos as int, i as usize);
                assert forall|j: int, k: int| 0 <= j < k < order@.len() implies lex_lt(
                    arr@[order@[j] as int],
                    arr@[order@[k] as int],
                ) by {
                    if k == pos {
                        assert(order@[j] == old_order[j]);
                    } else if j == pos {
                        // the new point sorts strictly before everything at
                        // and after the insertion position
                        assert(order@[k] == old_order[k - 1]);
                        if pos < old_order.len() {
                            assert(!lex_lt(arr@[old_order[pos as int] as int], arr@[i as int]));
                            assert(arr@[old_order[pos as int] as int] != arr@[i as int]);
                            assert(lex_lt(arr@[i as int], arr@[old_order[pos as int] as int]));
                            if k - 1 > pos {
                                assert(lex_lt(
                                    arr@[old_order[pos as int] as int],
                                    arr@[old_order[k - 1] as int],
                                ));
                            }
                        }
                    } else if j < pos && k < pos {
                        assert(order@[j] == old_order[j]);
                        assert(order@[k] == old_order[k]);
                    } else if j < pos {
                        assert(order@[j] == old_order[j]);
                        assert(order@[k] == old_order[k - 1]);
                    } else {
                        assert(order@[j] == old_order[j - 1]);
                        assert(order@[k] == old_order[k - 1]);
                    }
                }
                lemma_ins_sorted_at(arr@, old_order, i, pos as int);
                assert(order@ == ins_sorted(arr@, old_order, i));
            }
        } else {
            proof {
                lemma_ins_sorted_at(arr@, order@, i, pos as int);
                assert(order@ == ins_sorted(arr@, order@, i));
            }
        }
        i = i + 1;
    }
    order
}

/// One step of the monotone chain: pop while the last two vertices and the
/// new one fail to make a strict counter-clockwise turn, then append.
pub open spec fn chain_step(ps: Seq<Vec2>, st: Seq<usize>, idx: usize) -> Seq<usize>
    decreases st.len(),
{
    if st.len() < 2 {
        st.push(idx)
    } else if orient_val(
        ps[st[st.len() - 2] as int],
        ps[st[st.len() - 1] as int],
        ps[idx as int],
    ) <= 0 {
        chain_step(ps, st.drop_last(), idx)
    } else {
        st.push(idx)
    }
}

/// The chain built from the first m entries of the index order.
pub open spec fn chain_fold(ps: Seq<Vec2>, s: Seq<usize>, m: int) -> Seq<usize>
    decreases m,
{
    if m <= 0 {
        Seq::empty()
    } else {
        chain_step(ps, chain_fold(ps, s, m - 1), s[m - 1])
    }
}

/// One pass of the monotone chain over indices whose coordinates strictly
/// increase lexicographically; pops every vertex that fails to make a strict
/// counter-clockwise turn.
fn chain_asc(arr: &[Vec2], seq: &Vec<usize>) -> (st: Vec<usize>)
    requires
        points_ok(arr@),
        lex_sorted(arr@, seq@),
        seq@.len() >= 1,
    ensures
        lex_sorted(arr@, st@),
        st@.len() >= 1,
        st@[0] == seq@[0],
        st@[st@.len() - 1] == seq@[seq@.len() - 1],
        st@ == chain_fold(arr@, seq@, seq@.len() as int),
{
    let n = seq.len();
    let mut st: Vec<usize> = Vec::new();
    let mut i: usize = 0;
    while i < n
        invariant
            0 <= i <= n,
            n == seq@.len(),
            points_ok(arr@),
            lex_sorted(arr@, seq@),
            lex_sorted(arr@, st@),
            st@ == chain_fold(arr@, seq@, i as int),
            i == 0 ==> st@.len() == 0,
            i > 0 ==> st@.len() >= 1 && st@[0] == seq@[0] && st@[st@.len() - 1] == seq@[i - 1],
            forall|k: int|
                0 <= k < st@.len() ==> exists|j: int|
                    0 <= j < i && #[trigger] st@[k] == seq@[j],
        decreases n - i,
    {
        let idx = seq[i];
        let ghost st_entry = st@;
        while st.len() >= 2 && orient(arr[st[st.len() - 2]], arr[st[st.len() - 1]], arr[idx]) <= 0
            invariant
                chain_step(arr@, st@, idx) == chain_step(arr@, st_entry, idx),
                0 <= i < n,
                n == seq@.len(),
                idx == seq@[i as int],
                points_ok(arr@),
                lex_sorted(arr@, seq@),
                lex_sorted(arr@, st@),
                i == 0 ==> st@.len() == 0,
                i > 0 ==> st@.len() >= 1 && st@[0] == seq@[0],
                forall|k: int|
                    0 <= k < st@.len() ==> exists|j: int|
                        0 <= j < i && #[trigger] st@[k] == seq@[j],
            decreases st@.len(),
        {
            let ghost pre = st@;
            st.pop();
            proof {
                assert(st@ =~= pre.drop_last());
                assert(chain_step(arr@, pre, idx) == chain_step(arr@, st@, idx));
            }
        }
        proof {
            if st@.len() > 0 {
                let k = st@.len() - 1;
                let j = choose|j: int| 0 <= j < i && st@[k] == seq@[j];
                assert(lex_lt(arr@[seq@[j] as int], arr@[seq@[i as int] as int]));
            }
        }
        st.push(idx);
        proof {
            assert forall|j: int, k: int| 0 <= j < k < st@.len() implies lex_lt(
                arr@[st@[j] as int],
                arr@[st@[k] as int],
            ) by {
                if k == st@.len() - 1 {
                    let jj = choose|jj: int| 0 <= jj < i && st@[j] == seq@[jj];
                    assert(lex_lt(arr@[seq@[jj] as int], arr@[seq@[i as int] as int]));
                }
            }
            assert(st@ == chain_step(arr@, st_entry, idx));
            assert(st@ == chain_fold(arr@, seq@, i as int + 1));
        }
        i = i + 1;
    }
    st
}

/// The mirror pass over indices whose coordinates strictly decrease
/// lexicographically; builds the upper chain.
fn chain_desc(arr: &[Vec2], seq: &Vec<usize>) -> (st: Vec<usize>)
    requires
        points_ok(arr@),
        lex_sorted_rev(arr@, seq@),
        seq@.len() >= 1,
    ensures
        lex_sorted_rev(arr@, st@),
        st@.len() >= 1,
        st@[0] == seq@[0],
        st@[st@.len() - 1] == seq@[seq@.len() - 1],
        st@ == chain_fold(arr@, seq@, seq@.len() as int),
{
    let n = seq.len();
    let mut st: Vec<usize> = Vec::new();
    let mut i: usize = 0;
    while i < n
        invariant
            0 <= i <= n,
            n == seq@.len(),
            points_ok(arr@),
            lex_sorted_rev(arr@, seq@),
            lex_sorted_rev(arr@, st@),
            st@ == chain_fold(arr@, seq@, i as int),
            i == 0 ==> st@.len() == 0,
            i > 0 ==> st@.len() >= 1 && st@[0] == seq@[0] && st@[st@.len() - 1] == seq@[i - 1],
            forall|k: int|
                0 <= k < st@.len() ==> exists|j: int|
                    0 <= j < i && #[trigger] st@[k] == seq@[j],
        decreases n - i,
    {
        let idx = seq[i];
        let ghost st_entry = st@;
        while st.len() >= 2 && orient(arr[st[st.len() - 2]], arr[st[st.len() - 1]], arr[idx]) <= 0
            invariant
                chain_step(arr@, st@, idx) == chain_step(arr@, st_entry, idx),
                0 <= i < n,
                n == seq@.len(),
                idx == seq@[i as int],
                points_ok(arr@),
                lex_sorted_rev(arr@, seq@),
                lex_sorted_rev(arr@, st@),
                i == 0 ==> st@.len() == 0,
                i > 0 ==> st@.len() >= 1 && st@[0] == seq@[0],
                forall|k: int|
                    0 <= k < st@.len() ==> exists|j: int|
                        0 <= j < i && #[trigger] st@[k] == seq@[j],
            decreases st@.len(),
        {
            let ghost pre = st@;
            st.pop();
            proof {
                assert(st@ =~= pre.drop_last());
                assert(chain_step(arr@, pre, idx) == chain_step(arr@, st@, idx));
            }
        }
        proof {
            if st@.len() > 0 {
                let k = st@.len() - 1;
                let j = choose|j: int| 0 <= j < i && st@[k] == seq@[j];
                assert(lex_lt(arr@[seq@[i as int] as int], arr@[seq@[j] as int]));
            }
        }
        st.push(idx);
        proof {
            assert forall|j: int, k: int| 0 <= j < k < st@.len() implies lex_lt(
                arr@[st@[k] as int],
                arr@[st@[j] as int],
            ) by {
                if k == st@.len() - 1 {
                    let jj = choose|jj: int| 0 <= jj < i && st@[j] == seq@[jj];
                    assert(lex_lt(arr@[seq@[i as int] as int], arr@[seq@[jj] as int]));
                }
            }
            assert(st@ == chain_step(arr@, st_entry, idx));
            assert(st@ == chain_fold(arr@, seq@, i as int + 1));
        }
        i = i + 1;
    }
    st
}

/// Every three consecutive vertices of the index sequence turn strictly
/// counter-clockwise.
pub open spec fn triples_ccw(ps: Seq<Vec2>, s: Seq<usize>) -> bool {
    forall|k: int|
        2 <= k < s.len() ==> #[trigger] orient_val(
            ps[s[k - 2] as int],
            ps[s[k - 1] as int],
            ps[s[k] as int],
        ) > 0
}

/// A chain step keeps the strict counter-clockwise turns: it pops exactly
/// until the appended vertex makes one.
proof fn lemma_chain_step_ccw(ps: Seq<Vec2>, st: Seq<usize>, idx: usize)
    requires
        triples_ccw(ps, st),
    ensures
        triples_ccw(ps, chain_step(ps, st, idx)),
    decreases st.len(),
{
    if st.len() < 2 {
    } else if orient_val(
        ps[st[st.len() - 2] as int],
        ps[st[st.len() - 1] as int],
        ps[idx as int],
    ) <= 0 {
        let d = st.drop_last();
        assert forall|k: int| 2 <= k < d.len() implies #[trigger] orient_val(
            ps[d[k - 2] as int],
            ps[d[k - 1] as int],
            ps[d[k] as int],
        ) > 0 by {
            assert(d[k - 2] == st[k - 2]);
            assert(d[k - 1] == st[k - 1]);
            assert(d[k] == st[k]);
            assert(orient_val(ps[st[k - 2] as int], ps[st[k - 1] as int], ps[st[k] as int]) > 0);
        }
        lemma_chain_step_ccw(ps, d, idx);
    } else {
        let r = st.push(idx);
        assert forall|k: int| 2 <= k < r.len() implies #[trigger] orient_val(
            ps[r[k - 2] as int],
            ps[r[k - 1] as int],
            ps[r[k] as int],
        ) > 0 by {
            if k == r.len() - 1 {
                assert(r[k - 2] == st[st.len() - 2]);
                assert(r[k - 1] == st[st.len() - 1]);
                assert(r[k] == idx);
            } else {
                assert(r[k - 2] == st[k - 2]);
                assert(r[k - 1] == st[k - 1]);
                assert(r[k] == st[k]);
                assert(orient_val(ps[st[k - 2] as int], ps[st[k - 1] as int], ps[st[k] as int])
                    > 0);
            }
        }
    }
}

/// The whole chain keeps strict counter-clockwise turns.
proof fn lemma_chain_fold_ccw(ps: Seq<Vec2>, s: Seq<usize>, m: int)
    ensures
        triples_ccw(ps, chain_fold(ps, s, m)),
    decreases m,
{
    if m <= 0 {
    } else {
        lemma_chain_fold_ccw(ps, s, m - 1);
        lemma_chain_step_ccw(ps, chain_fold(ps, s, m - 1), s[m - 1]);
    }
}

/// Hull convexity, stated of the construction itself: along the lower and
/// the upper boundary chain of any input, every consecutive vertex triple
/// turns strictly counter-clockwise, so each chain bends only leftward.
pub proof fn lemma_hull_chains_ccw(ps: Seq<Vec2>)
    ensures
        triples_ccw(
            ps,
            chain_fold(
                ps,
                sorted_dedup(ps, ps.len() as int),
                sorted_dedup(ps, ps.len() as int).len() as int,
            ),
        ),
        triples_ccw(
            ps,
            chain_fold(
                ps,
                sorted_dedup(ps, ps.len() as int).reverse(),
                sorted_dedup(ps, ps.len() as int).len() as int,
            ),
        ),
{
    let order = sorted_dedup(ps, ps.len() as int);
    lemma_chain_fold_ccw(ps, order, order.len() as int);
    lemma_chain_fold_ccw(ps, order.reverse(), order.len() as int);
    assert(order.reverse().len() == order.len());
}

/// Every vertex of an insertion result is the inserted index or one of the
/// old ones.
proof fn lemma_ins_sorted_elems(ps: Seq<Vec2>, s: Seq<usize>, i: usize)
    ensures
        forall|k: int|
            0 <= k < ins_sorted(ps, s, i).len() ==> #[trigger] ins_sorted(ps, s, i)[k] == i
                || s.contains(ins_sorted(ps, s, i)[k]),
    decreases s.len(),
{
    let r = ins_sorted(ps, s, i);
    if s.len() == 0 {
    } else if lex_lt(ps[s[0] as int], ps[i as int]) {
        let d = s.drop_first();
        lemma_ins_sorted_elems(ps, d, i);
        assert forall|k: int| 0 <= k < r.len() implies #[trigger] r[k] == i || s.contains(r[k]) by {
            if k == 0 {
                assert(s[0] == r[0]);
                assert(s.contains(r[k]));
            } else {
                assert(r[k] == ins_sorted(ps, d, i)[k - 1]);
                if r[k] != i {
                    let j = choose|j: int| 0 <= j < d.len() && d[j] == r[k];
                    assert(s[j + 1] == r[k]);
                    assert(s.contains(r[k]));
                }
            }
        }
    } else if ps[s[0] as int] == ps[i as int] {
        assert(forall|k: int| 0 <= k < s.len() ==> s.contains(#[trigger] s[k]));
    } else {
        assert forall|k: int| 0 <= k < r.len() implies #[trigger] r[k] == i || s.contains(r[k]) by {
            if k > 0 {
                assert(s[k - 1] == r[k]);
                assert(s.contains(r[k]));
            }
        }
    }
}

/// Every vertex of the sorted order names one of the first m input points.
proof fn lemma_sorted_dedup_bounds(ps: Seq<Vec2>, m: int)
    requires
        0 <= m,
    ensures
        forall|k: int|
            0 <= k < sorted_dedup(ps, m).len() ==> #[trigger] sorted_dedup(ps, m)[k] < m,
    decreases m,
{
    if m > 0 {
        lemma_sorted_dedup_bounds(ps, m - 1);
        let prev = sorted_dedup(ps, m - 1);
        lemma_ins_sorted_elems(ps, prev, (m - 1) as usize);
        assert forall|k: int| 0 <= k < sorted_dedup(ps, m).len() implies #[trigger] sorted_dedup(
            ps,
            m,
        )[k] < m by {
            if sorted_dedup(ps, m)[k] != (m - 1) as usize {
                let x = sorted_dedup(ps, m)[k];
                let j = choose|j: int| 0 <= j < prev.len() && prev[j] == x;
                assert(prev[j] < m - 1);
            }
        }
    }
}

/// On an entirely collinear input a chain step never keeps a third vertex:
/// the turn test is exactly zero and pops.
proof fn lemma_chain_step_collinear(ps: Seq<Vec2>, st: Seq<usize>, idx: usize)
    requires
        all_collinear(ps),
        forall|k: int| 0 <= k < st.len() ==> #[trigger] st[k] < ps.len(),
        idx < ps.len(),
        st.len() <= 2,
    ensures
        1 <= chain_step(ps, st, idx).len() <= 2,
        forall|k: int|
            0 <= k < chain_step(ps, st, idx).len() ==> #[trigger] chain_step(ps, st, idx)[k] == idx
                || st.contains(chain_step(ps, st, idx)[k]),
    decreases st.len(),
{
    if st.len() < 2 {
        assert(forall|k: int| 0 <= k < st.len() ==> st.contains(#[trigger] st[k]));
    } else {
        assert(orient_val(ps[st[0] as int], ps[st[1] as int], ps[idx as int]) == 0);
        let d = st.drop_last();
        lemma_chain_step_collinear(ps, d, idx);
        assert forall|k: int| 0 <= k < chain_step(ps, st, idx).len() implies #[trigger] chain_step(
            ps,
            st,
            idx,
        )[k] == idx || st.contains(chain_step(ps, st, idx)[k]) by {
            if chain_step(ps, st, idx)[k] != idx {
                let x = chain_step(ps, st, idx)[k];
                let j = choose|j: int| 0 <= j < d.len() && d[j] == x;
                assert(st[j] == x);
            }
        }
    }
}

/// On an entirely collinear input every chain stops at two vertices.
proof fn lemma_chain_fold_collinear(ps: Seq<Vec2>, s: Seq<usize>, m: int)
    requires
        all_collinear(ps),
        forall|k: int| 0 <= k < s.len() ==> #[trigger] s[k] < ps.len(),
        0 <= m <= s.len(),
    ensures
        chain_fold(ps, s, m).len() <= 2,
        m >= 1 ==> chain_fold(ps, s, m).len() >= 1,
        forall|k: int|
            0 <= k < chain_fold(ps, s, m).len() ==> #[trigger] chain_fold(ps, s, m)[k] < ps.len(),
    decreases m,
{
    if m > 0 {
        lemma_chain_fold_collinear(ps, s, m - 1);
        let prev = chain_fold(ps, s, m - 1);
        lemma_chain_step_collinear(ps, prev, s[m - 1]);
        assert forall|k: int| 0 <= k < chain_fold(ps, s, m).len() implies #[trigger] chain_fold(
            ps,
            s,
            m,
        )[k] < ps.len() by {
            if chain_fold(ps, s, m)[k] != s[m - 1] {
                let x = chain_fold(ps, s, m)[k];
                let j = choose|j: int| 0 <= j < prev.len() && prev[j] == x;
                assert(prev[j] < ps.len());
            }
        }
    }
}

/// Skipping repeats can only shorten what is appended.
proof fn lemma_fold_unique_len(h: Seq<i32>, u: Seq<usize>, m: int)
    requires
        0 <= m,
    ensures
        fold_unique(h, u, m).len() <= h.len() + m,
    decreases m,
{
    if m > 0 {
        lemma_fold_unique_len(h, u, m - 1);
    }
}

/// The degenerate half of the hull contract: an entirely collinear input
/// has a hull of at most two vertices, its extremes.
pub proof fn lemma_collinear_hull_is_flat(ps: Seq<Vec2>)
    requires
        all_collinear(ps),
    ensures
        hull_of(ps).len() <= 2,
{
    let order = sorted_dedup(ps, ps.len() as int);
    lemma_sorted_dedup_bounds(ps, ps.len() as int);
    if ps.len() == 0 {
    } else if order.len() == 1 {
    } else {
        let rev = order.reverse();
        assert(forall|k: int|
            0 <= k < rev.len() ==> #[trigger] rev[k] == order[order.len() - 1 - k]);
        assert(forall|k: int| 0 <= k < rev.len() ==> #[trigger] rev[k] < ps.len());
        let lower = chain_fold(ps, order, order.len() as int);
        let upper = chain_fold(ps, rev, order.len() as int);
        lemma_chain_fold_collinear(ps, order, order.len() as int);
        lemma_chain_fold_collinear(ps, rev, order.len() as int);
        lemma_fold_unique_len(map_idx(lower.drop_last()), upper, upper.len() - 1);
    }
}

/// Appends a vertex unless it is already present.
pub open spec fn push_unique(h: Seq<i32>, v: i32) -> Seq<i32> {
    if h.contains(v) {
        h
    } else {
        h.push(v)
    }
}

/// Appends the first m entries of the index order, skipping repeats.
pub open spec fn fold_unique(h: Seq<i32>, u: Seq<usize>, m: int) -> Seq<i32>
    decreases m,
{
    if m <= 0 {
        h
    } else {
        push_unique(fold_unique(h, u, m - 1), u[m - 1] as i32)
    }
}

/// The positions, renarrated as result indices.
pub open spec fn map_idx(s: Seq<usize>) -> Seq<i32> {
    Seq::new(s.len(), |t: int| s[t] as i32)
}

/// The convex hull of a point sequence, as a mathematical function of the
/// input alone: the lower chain without its last vertex, then the upper
/// chain without its last vertex, repeats skipped. Two equal inputs always
/// have equal hulls.
pub open spec fn hull_of(ps: Seq<Vec2>) -> Seq<i32> {
    let order = sorted_dedup(ps, ps.len() as int);
    let lower = chain_fold(ps, order, order.len() as int);
    let upper = chain_fold(ps, order.reverse(), order.len() as int);
    if ps.len() == 0 {
        Seq::empty()
    } else if order.len() == 1 {
        seq![order[0] as i32]
    } else {
        fold_unique(map_idx(lower.drop_last()), upper, upper.len() - 1)
    }
}

/// Computes the convex hull of the input points.
///
/// The result lists indices of the extreme vertices, counter-clockwise,
/// starting from the lexicographically smallest coordinate. Points whose
/// coordinates coincide contribute one vertex: the smallest such index.
/// Strictly collinear points interior to a hull edge are excluded. An input
/// with a coordinate off the exact grid is rejected whole.
pub fn convex_hull_2(arr: &[Vec2]) -> (r: Result<Vec<i32>, GeomError>)
    requires
        arr@.len() <= 0x7fffffff,
    ensures
        r is Err <==> !points_ok(arr@),
        r is Err ==> r->Err_0 == GeomError::InvalidInput,
        r is Ok ==> hull_indices_ok(arr@.len() as int, r->Ok_0@),
        r is Ok ==> r->Ok_0@.no_duplicates(),
        r is Ok && arr@.len() == 0 ==> r->Ok_0@.len() == 0,
        r is Ok && arr@.len() >= 1 ==> r->Ok_0@.len() >= 1,
        r is Ok && arr@.len() == 1 ==> r->Ok_0@ =~= seq![0i32],
        r is Ok ==> r->Ok_0@ == hull_of(arr@),
{
    if !points_valid(arr) {
        return Err(GeomError::InvalidInput);
    }
    let n = arr.len();
    if n == 0 {
        let h: Vec<i32> = Vec::new();
        proof {
            assert(h@ =~= hull_of(arr@));
        }
        return Ok(h);
    }
    let order = sorted_order(arr);
    if order.len() == 1 {
        let mut h: Vec<i32> = Vec::new();
        h.push(order[0] as i32);
        proof {
            if arr@.len() == 1 {
                assert(h@ =~= seq![0i32]);
            }
            assert(h@ =~= hull_of(arr@));
        }
        return Ok(h);
    }
    proof {
        // with a single input point the order cannot hold two positions
        if arr@.len() == 1 {
            assert(order@.len() >= 2);
            assert(order@[0] < 1);
            assert(order@[1] < 1);
            assert(lex_lt(arr@[order@[0] as int], arr@[order@[1] as int]));
            assert(false);
        }
    }
    let lower = chain_asc(arr, &order);
    let mut rev: Vec<usize> = Vec::new();
    let mut k = order.len();
    while k > 0
        invariant
            0 <= k <= order@.len(),
            lex_sorted(arr@, order@),
            rev@.len() == order@.len() - k,
            forall|j: int| 0 <= j < rev@.len() ==> #[trigger] rev@[j] == order@[order@.len() - 1 - j],
        decreases k,
    {
        k = k - 1;
        rev.push(order[k]);
    }
    proof {
        assert forall|j: int, k2: int| 0 <= j < k2 < rev@.len() implies lex_lt(
            arr@[rev@[k2] as int],
            arr@[rev@[j] as int],
        ) by {
            assert(rev@[j] == order@[order@.len() - 1 - j]);
            assert(rev@[k2] == order@[order@.len() - 1 - k2]);
        }
        assert forall|k2: int| 0 <= k2 < rev@.len() implies #[trigger] rev@[k2] < arr@.len() by {
            assert(rev@[k2] == order@[order@.len() - 1 - k2]);
        }
        assert(rev@ =~= order@.reverse());
    }
    let upper = chain_desc(arr, &rev);
    proof {
        // the two chains keep both extremes, so the lower chain has at
        // least the two distinct endpoints
        if lower@.len() < 2 {
            assert(lower@[0] == order@[0]);
            assert(lower@[lower@.len() - 1] == order@[order@.len() - 1]);
            assert(lex_lt(arr@[order@[0] as int], arr@[order@[order@.len() - 1] as int]));
            assert(false);
        }
    }
    let ghost np = arr@.len() as int;
    let mut h: Vec<i32> = Vec::new();
    let mut i: usize = 0;
    while i < lower.len() - 1
        invariant
            0 <= i <= lower@.len() - 1,
            lower@.len() >= 2,
            np == arr@.len(),
            np <= 0x7fffffff,
            lex_sorted(arr@, lower@),
            h@.len() == i,
            h@ == map_idx(lower@.take(i as int)),
            forall|t: int| 0 <= t < i ==> #[trigger] h@[t] == lower@[t] as i32,
            hull_indices_ok(np, h@),
            h@.no_duplicates(),
        decreases lower@.len() - i,
    {
        proof {
            assert forall|t: int| 0 <= t < i implies h@[t] != (lower@[i as int] as i32) by {
                assert(lex_lt(arr@[lower@[t] as int], arr@[lower@[i as int] as int]));
            }
        }
        h.push(lower[i] as i32);
        proof {
            assert(h@ =~= map_idx(lower@.take(i as int + 1)));
        }
        i = i + 1;
    }
    let ghost base = map_idx(lower@.drop_last());
    proof {
        assert(lower@.take(lower@.len() - 1) =~= lower@.drop_last());
        assert(h@ == base);
    }
    let mut j: usize = 0;
    while j < upper.len() - 1
        invariant
            0 <= j <= upper@.len() - 1,
            upper@.len() >= 1,
            np == arr@.len(),
            np <= 0x7fffffff,
            lex_sorted_rev(arr@, upper@),
            h@.len() >= 1,
            h@ == fold_unique(base, upper@, j as int),
            hull_indices_ok(np, h@),
            h@.no_duplicates(),
        decreases upper@.len() - j,
    {
        let v = upper[j] as i32;
        let mut seen = false;
        let mut t: usize = 0;
        while t < h.len()
            invariant
                0 <= t <= h@.len(),
                seen == exists|s: int| 0 <= s < t && #[trigger] h@[s] == v,
            decreases h@.len() - t,
        {
            if h[t] == v {
                seen = true;
            }
            t = t + 1;
        }
        proof {
            assert(seen == h@.contains(v));
        }
        let ghost h_pre = h@;
        if !seen {
            h.push(v);
        }
        proof {
            assert(h@ == push_unique(h_pre, v));
            assert(h@ == fold_unique(base, upper@, j as int + 1));
        }
        j = j + 1;
    }
    proof {
        assert(upper@ == chain_fold(arr@, order@.reverse(), order@.len() as int));
        assert(h@ == hull_of(arr@));
    }
    Ok(h)
}

} // verus!
