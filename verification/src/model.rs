use vstd::prelude::*;

use crate::geom::{adjacent, lemma_rot_adjacent, lemma_rot_compose, lemma_rot_inv,
    lemma_rot_linear, rot_inv, rot_pt, tr_pt};

verus! {

broadcast use vstd::set::group_set_axioms;

/// The image of a cell set under `k` quarter turns about the origin.
pub open spec fn rot_set(k: int, s: Set<(int, int)>) -> Set<(int, int)> {
    Set::new(|q: (int, int)| s.contains(rot_pt(rot_inv(k), q)))
}

/// The image of a cell set under translation by `d`.
pub open spec fn tr_set(s: Set<(int, int)>, d: (int, int)) -> Set<(int, int)> {
    Set::new(|q: (int, int)| s.contains((q.0 - d.0, q.1 - d.1)))
}

/// A point set is usable as input when it is a finite, non-empty set of cells.
pub open spec fn wf_pts(s: Set<(int, int)>) -> bool {
    &&& s.finite()
    &&& exists|p: (int, int)| s.contains(p)
}

/// Coordinate of a cell along axis `ax` (0 is x, 1 is y).
pub open spec fn axis(p: (int, int), ax: int) -> int {
    if ax == 0 {
        p.0
    } else {
        p.1
    }
}

/// `m` is the least coordinate along axis `ax` taken by any cell of `s`.
pub open spec fn is_min(ax: int, s: Set<(int, int)>, m: int) -> bool {
    &&& exists|p: (int, int)| s.contains(p) && axis(p, ax) == m
    &&& forall|p: (int, int)| s.contains(p) ==> m <= axis(p, ax)
}

/// `m` is the greatest coordinate along axis `ax` taken by any cell of `s`.
pub open spec fn is_max(ax: int, s: Set<(int, int)>, m: int) -> bool {
    &&& exists|p: (int, int)| s.contains(p) && axis(p, ax) == m
    &&& forall|p: (int, int)| s.contains(p) ==> axis(p, ax) <= m
}

#[verifier::opaque]
pub open spec fn min_x(s: Set<(int, int)>) -> int {
    choose|m: int| is_min(0, s, m)
}

#[verifier::opaque]
pub open spec fn min_y(s: Set<(int, int)>) -> int {
    choose|m: int| is_min(1, s, m)
}

#[verifier::opaque]
pub open spec fn max_x(s: Set<(int, int)>) -> int {
    choose|m: int| is_max(0, s, m)
}

#[verifier::opaque]
pub open spec fn max_y(s: Set<(int, int)>) -> int {
    choose|m: int| is_max(1, s, m)
}

/// The set translated so that its least coordinate on each axis is zero.
#[verifier::opaque]
pub open spec fn norm_set(s: Set<(int, int)>) -> Set<(int, int)> {
    tr_set(s, (-min_x(s), -min_y(s)))
}

/// The realigned image of `s` under `k` quarter turns: one of the four
/// candidate frames the canonicalizer compares.
#[verifier::opaque]
pub open spec fn cand_set(s: Set<(int, int)>, k: int) -> Set<(int, int)> {
    norm_set(rot_set(k, s))
}

/// The definition of a candidate frame, for use where the opaque function
/// must be unfolded.
pub proof fn lemma_cand_def(s: Set<(int, int)>, k: int)
    ensures
        cand_set(s, k) == norm_set(rot_set(k, s)),
{
    reveal(cand_set);
}

/// Both extents of the bounding box fit the 64-column packing width.
#[verifier::opaque]
pub open spec fn within_cap(s: Set<(int, int)>) -> bool {
    &&& max_x(s) - min_x(s) < 64
    &&& max_y(s) - min_y(s) < 64
}

/// Every cell has some axis-neighbor in the set.
#[verifier::opaque]
pub open spec fn connected_set(s: Set<(int, int)>) -> bool {
    forall|p: (int, int)|
        s.contains(p) ==> exists|q: (int, int)| s.contains(q) && adjacent(p, q)
}

// ---------------------------------------------------------------------------
// membership of the transformed sets
// ---------------------------------------------------------------------------

pub proof fn lemma_rot_set_contains(k: int, s: Set<(int, int)>, p: (int, int))
    requires
        0 <= k < 4,
    ensures
        rot_set(k, s).contains(rot_pt(k, p)) == s.contains(p),
{
    lemma_rot_inv(k, p);
}

pub proof fn lemma_tr_set_contains(s: Set<(int, int)>, d: (int, int), p: (int, int))
    ensures
        tr_set(s, d).contains(tr_pt(p, d)) == s.contains(p),
{
    assert((tr_pt(p, d).0 - d.0, tr_pt(p, d).1 - d.1) == p);
}

pub proof fn lemma_rot_set_finite(k: int, s: Set<(int, int)>)
    requires
        0 <= k < 4,
        s.finite(),
    ensures
        rot_set(k, s).finite(),
        wf_pts(s) ==> wf_pts(rot_set(k, s)),
{
    let f = |p: (int, int)| rot_pt(k, p);
    assert(rot_set(k, s) =~= s.map(f)) by {
        assert forall|q: (int, int)| rot_set(k, s).contains(q) implies s.map(f).contains(q) by {
            let p = rot_pt(rot_inv(k), q);
            lemma_rot_inv(k, p);
            assert(rot_pt(k, p) == q) by {
                lemma_rot_compose(k, rot_inv(k), q);
                lemma_rot_inv(k, q);
            }
            assert(s.contains(p) && f(p) == q);
        }
        assert forall|q: (int, int)| s.map(f).contains(q) implies rot_set(k, s).contains(q) by {
            let p = choose|p: (int, int)| s.contains(p) && f(p) == q;
            lemma_rot_inv(k, p);
        }
    }
    s.lemma_map_finite(f);
    if wf_pts(s) {
        let p = choose|p: (int, int)| s.contains(p);
        lemma_rot_set_contains(k, s, p);
    }
}

pub proof fn lemma_tr_set_finite(s: Set<(int, int)>, d: (int, int))
    requires
        s.finite(),
    ensures
        tr_set(s, d).finite(),
        wf_pts(s) ==> wf_pts(tr_set(s, d)),
{
    let f = |p: (int, int)| tr_pt(p, d);
    assert(tr_set(s, d) =~= s.map(f)) by {
        assert forall|q: (int, int)| tr_set(s, d).contains(q) implies s.map(f).contains(q) by {
            let p = (q.0 - d.0, q.1 - d.1);
            assert(s.contains(p) && f(p) == q);
        }
        assert forall|q: (int, int)| s.map(f).contains(q) implies tr_set(s, d).contains(q) by {
            let p = choose|p: (int, int)| s.contains(p) && f(p) == q;
            lemma_tr_set_contains(s, d, p);
        }
    }
    s.lemma_map_finite(f);
    if wf_pts(s) {
        let p = choose|p: (int, int)| s.contains(p);
        lemma_tr_set_contains(s, d, p);
    }
}

// ---------------------------------------------------------------------------
// composition of transforms
// ---------------------------------------------------------------------------

pub proof fn lemma_rot_rot(j: int, k: int, s: Set<(int, int)>)
    requires
        0 <= j < 4,
        0 <= k < 4,
    ensures
        rot_set(j, rot_set(k, s)) == rot_set((j + k) % 4, s),
{
    let jk = (j + k) % 4;
    assert(rot_set(j, rot_set(k, s)) =~= rot_set(jk, s)) by {
        assert forall|q: (int, int)|
            rot_set(j, rot_set(k, s)).contains(q) == rot_set(jk, s).contains(q) by {
            lemma_rot_compose(rot_inv(k), rot_inv(j), q);
            assert((rot_inv(k) + rot_inv(j)) % 4 == rot_inv(jk));
        }
    }
}

pub proof fn lemma_tr_tr(s: Set<(int, int)>, d1: (int, int), d2: (int, int))
    ensures
        tr_set(tr_set(s, d1), d2) == tr_set(s, (d1.0 + d2.0, d1.1 + d2.1)),
{
    assert(tr_set(tr_set(s, d1), d2) =~= tr_set(s, (d1.0 + d2.0, d1.1 + d2.1)));
}

pub proof fn lemma_rot_tr(k: int, s: Set<(int, int)>, d: (int, int))
    requires
        0 <= k < 4,
    ensures
        rot_set(k, tr_set(s, d)) == tr_set(rot_set(k, s), rot_pt(k, d)),
{
    assert(rot_set(k, tr_set(s, d)) =~= tr_set(rot_set(k, s), rot_pt(k, d))) by {
        assert forall|q: (int, int)|
            rot_set(k, tr_set(s, d)).contains(q) == tr_set(rot_set(k, s), rot_pt(k, d)).contains(
                q,
            ) by {
            let e = rot_pt(k, d);
            // left side: tr_set(s, d) must contain rot_inv(k) applied to q
            // right side: s must contain rot_inv(k) applied to (q - e)
            lemma_rot_linear(rot_inv(k), (q.0 - e.0, q.1 - e.1), e);
            lemma_rot_inv(k, d);
            assert(rot_pt(rot_inv(k), q) == tr_pt(rot_pt(rot_inv(k), (q.0 - e.0, q.1 - e.1)), d))
                by {
                assert(tr_pt((q.0 - e.0, q.1 - e.1), e) == q);
                lemma_rot_linear(rot_inv(k), (q.0 - e.0, q.1 - e.1), e);
            }
        }
    }
}

// ---------------------------------------------------------------------------
// extremes: pinning the corners, and their behaviour under translation
// ---------------------------------------------------------------------------

/// Pin the `choose`-based corner functions from witnesses.
pub proof fn lemma_pin_bounds(s: Set<(int, int)>, mnx: int, mny: int, mxx: int, mxy: int)
    requires
        is_min(0, s, mnx),
        is_min(1, s, mny),
        is_max(0, s, mxx),
        is_max(1, s, mxy),
    ensures
        min_x(s) == mnx,
        min_y(s) == mny,
        max_x(s) == mxx,
        max_y(s) == mxy,
{
    reveal(min_x);
    reveal(min_y);
    reveal(max_x);
    reveal(max_y);
    assert(is_min(0, s, min_x(s)));
    assert(is_min(1, s, min_y(s)));
    assert(is_max(0, s, max_x(s)));
    assert(is_max(1, s, max_y(s)));
}

pub proof fn lemma_extreme_tr(ax: int, s: Set<(int, int)>, d: (int, int), m: int)
    ensures
        is_min(ax, s, m) ==> is_min(ax, tr_set(s, d), m + axis(d, ax)),
        is_max(ax, s, m) ==> is_max(ax, tr_set(s, d), m + axis(d, ax)),
{
    if is_min(ax, s, m) {
        let p = choose|p: (int, int)| s.contains(p) && axis(p, ax) == m;
        lemma_tr_set_contains(s, d, p);
        assert(tr_set(s, d).contains(tr_pt(p, d)) && axis(tr_pt(p, d), ax) == m + axis(d, ax));
        assert forall|q: (int, int)| tr_set(s, d).contains(q) implies m + axis(d, ax) <= axis(
            q,
            ax,
        ) by {
            assert(s.contains((q.0 - d.0, q.1 - d.1)));
        }
    }
    if is_max(ax, s, m) {
        let p = choose|p: (int, int)| s.contains(p) && axis(p, ax) == m;
        lemma_tr_set_contains(s, d, p);
        assert(tr_set(s, d).contains(tr_pt(p, d)) && axis(tr_pt(p, d), ax) == m + axis(d, ax));
        assert forall|q: (int, int)| tr_set(s, d).contains(q) implies axis(q, ax) <= m + axis(
            d,
            ax,
        ) by {
            assert(s.contains((q.0 - d.0, q.1 - d.1)));
        }
    }
}

/// Existence of extreme coordinates for finite, non-empty sets.
pub proof fn lemma_has_extremes(s: Set<(int, int)>)
    requires
        wf_pts(s),
    ensures
        is_min(0, s, min_x(s)),
        is_min(1, s, min_y(s)),
        is_max(0, s, max_x(s)),
        is_max(1, s, max_y(s)),
    decreases s.len(),
{
    reveal(min_x);
    reveal(min_y);
    reveal(max_x);
    reveal(max_y);
    let p0 = choose|p: (int, int)| s.contains(p);
    let rest = s.remove(p0);
    if exists|q: (int, int)| rest.contains(q) {
        assert(rest.len() < s.len()) by {
            assert(s.len() != 0) by {
                if s.len() == 0 {
                    s.lemma_len0_is_empty();
                }
            }
        }
        lemma_has_extremes(rest);
        lemma_extremes_step(0, s, rest, p0);
        lemma_extremes_step(1, s, rest, p0);
    } else {
        assert forall|q: (int, int)| s.contains(q) implies q == p0 by {
            if q != p0 {
                assert(rest.contains(q));
            }
        }
        assert(is_min(0, s, axis(p0, 0)));
        assert(is_min(1, s, axis(p0, 1)));
        assert(is_max(0, s, axis(p0, 0)));
        assert(is_max(1, s, axis(p0, 1)));
        lemma_pin_bounds(s, p0.0, p0.1, p0.0, p0.1);
    }
}

proof fn lemma_extremes_step(ax: int, s: Set<(int, int)>, rest: Set<(int, int)>, p0: (int, int))
    requires
        s.contains(p0),
        rest == s.remove(p0),
        is_min(ax, rest, choose|m: int| is_min(ax, rest, m)),
        is_max(ax, rest, choose|m: int| is_max(ax, rest, m)),
    ensures
        exists|m: int| is_min(ax, s, m),
        exists|m: int| is_max(ax, s, m),
        is_min(ax, s, choose|m: int| is_min(ax, s, m)),
        is_max(ax, s, choose|m: int| is_max(ax, s, m)),
{
    let mn = choose|m: int| is_min(ax, rest, m);
    let mx = choose|m: int| is_max(ax, rest, m);
    let smn: int = if axis(p0, ax) < mn {
        axis(p0, ax)
    } else {
        mn
    };
    let smx: int = if axis(p0, ax) > mx {
        axis(p0, ax)
    } else {
        mx
    };
    assert(is_min(ax, s, smn)) by {
        if axis(p0, ax) < mn {
            assert(s.contains(p0) && axis(p0, ax) == smn);
        } else {
            let w = choose|p: (int, int)| rest.contains(p) && axis(p, ax) == mn;
            assert(s.contains(w) && axis(w, ax) == smn);
        }
        assert forall|q: (int, int)| s.contains(q) implies smn <= axis(q, ax) by {
            if q != p0 {
                assert(rest.contains(q));
            }
        }
    }
    assert(is_max(ax, s, smx)) by {
        if axis(p0, ax) > mx {
            assert(s.contains(p0) && axis(p0, ax) == smx);
        } else {
            let w = choose|p: (int, int)| rest.contains(p) && axis(p, ax) == mx;
            assert(s.contains(w) && axis(w, ax) == smx);
        }
        assert forall|q: (int, int)| s.contains(q) implies axis(q, ax) <= smx by {
            if q != p0 {
                assert(rest.contains(q));
            }
        }
    }
}

// ---------------------------------------------------------------------------
// normalization
// ---------------------------------------------------------------------------

/// Translating a set first does not change its normalized image.
pub proof fn lemma_norm_tr(s: Set<(int, int)>, d: (int, int))
    requires
        wf_pts(s),
    ensures
        norm_set(tr_set(s, d)) == norm_set(s),
{
    reveal(norm_set);
    lemma_has_extremes(s);
    lemma_extreme_tr(0, s, d, min_x(s));
    lemma_extreme_tr(1, s, d, min_y(s));
    let t = tr_set(s, d);
    lemma_pin_bounds_min_only(t, min_x(s) + d.0, min_y(s) + d.1);
    lemma_tr_tr(s, d, (-(min_x(s) + d.0), -(min_y(s) + d.1)));
    assert(norm_set(t) == tr_set(s, (d.0 + -(min_x(s) + d.0), d.1 + -(min_y(s) + d.1))));
    assert((d.0 + -(min_x(s) + d.0), d.1 + -(min_y(s) + d.1)) == (-min_x(s), -min_y(s)));
}

/// Pin only the two minima (used where the maxima are not needed).
pub proof fn lemma_pin_bounds_min_only(s: Set<(int, int)>, mnx: int, mny: int)
    requires
        is_min(0, s, mnx),
        is_min(1, s, mny),
    ensures
        min_x(s) == mnx,
        min_y(s) == mny,
{
    reveal(min_x);
    reveal(min_y);
    assert(is_min(0, s, min_x(s)));
    assert(is_min(1, s, min_y(s)));
}

/// Pin only the greatest `y` coordinate.
pub proof fn lemma_pin_bounds_max_y(s: Set<(int, int)>, mxy: int)
    requires
        is_max(1, s, mxy),
    ensures
        max_y(s) == mxy,
        is_max(1, s, max_y(s)),
{
    reveal(max_y);
    assert(is_max(1, s, max_y(s)));
}

/// The candidate frames of a pre-rotated set are the candidate frames of the
/// original set, cyclically reindexed.
pub proof fn lemma_cand_rot(s: Set<(int, int)>, j: int, k: int)
    requires
        0 <= j < 4,
        0 <= k < 4,
    ensures
        cand_set(rot_set(j, s), k) == cand_set(s, (k + j) % 4),
{
    reveal(cand_set);
    reveal(norm_set);
    lemma_rot_rot(k, j, s);
}

/// The candidate frames of a pre-translated set are the candidate frames of
/// the original set.
pub proof fn lemma_cand_tr(s: Set<(int, int)>, d: (int, int), k: int)
    requires
        0 <= k < 4,
        wf_pts(s),
    ensures
        cand_set(tr_set(s, d), k) == cand_set(s, k),
{
    reveal(cand_set);
    reveal(norm_set);
    lemma_rot_tr(k, s, d);
    lemma_rot_set_finite(k, s);
    lemma_norm_tr(rot_set(k, s), rot_pt(k, d));
}

/// Zero quarter turns change nothing.
pub proof fn lemma_rot0(s: Set<(int, int)>)
    ensures
        rot_set(0, s) == s,
{
    assert(rot_set(0, s) =~= s);
}

/// A candidate frame of a candidate frame is a candidate frame of the
/// original set, with the quarter-turn counts added.
pub proof fn lemma_cand_of_cand(s: Set<(int, int)>, k1: int, k2: int)
    requires
        wf_pts(s),
        0 <= k1 < 4,
        0 <= k2 < 4,
    ensures
        cand_set(cand_set(s, k1), k2) == cand_set(s, (k2 + k1) % 4),
{
    reveal(cand_set);
    reveal(norm_set);
    let r = rot_set(k1, s);
    lemma_rot_set_finite(k1, s);
    let d = (-min_x(r), -min_y(r));
    assert(cand_set(s, k1) == tr_set(r, d));
    lemma_cand_tr(r, d, k2);
    lemma_cand_rot(s, k1, k2);
    assert(cand_set(r, k2) == cand_set(rot_set(k1, s), k2));
}

/// How the four corner coordinates move under each quarter turn.
pub proof fn lemma_extreme_rot(
    k: int,
    s: Set<(int, int)>,
    mn0: int,
    mn1: int,
    mx0: int,
    mx1: int,
)
    requires
        0 <= k < 4,
        is_min(0, s, mn0),
        is_min(1, s, mn1),
        is_max(0, s, mx0),
        is_max(1, s, mx1),
    ensures
        k == 0 ==> is_min(0, rot_set(k, s), mn0) && is_max(0, rot_set(k, s), mx0) && is_min(
            1,
            rot_set(k, s),
            mn1,
        ) && is_max(1, rot_set(k, s), mx1),
        k == 1 ==> is_min(0, rot_set(k, s), -mx1) && is_max(0, rot_set(k, s), -mn1) && is_min(
            1,
            rot_set(k, s),
            mn0,
        ) && is_max(1, rot_set(k, s), mx0),
        k == 2 ==> is_min(0, rot_set(k, s), -mx0) && is_max(0, rot_set(k, s), -mn0) && is_min(
            1,
            rot_set(k, s),
            -mx1,
        ) && is_max(1, rot_set(k, s), -mn1),
        k == 3 ==> is_min(0, rot_set(k, s), mn1) && is_max(0, rot_set(k, s), mx1) && is_min(
            1,
            rot_set(k, s),
            -mx0,
        ) && is_max(1, rot_set(k, s), -mn0),
{
    let p0 = choose|p: (int, int)| s.contains(p) && axis(p, 0) == mn0;
    let p1 = choose|p: (int, int)| s.contains(p) && axis(p, 1) == mn1;
    let q0 = choose|p: (int, int)| s.contains(p) && axis(p, 0) == mx0;
    let q1 = choose|p: (int, int)| s.contains(p) && axis(p, 1) == mx1;
    lemma_rot_set_contains(k, s, p0);
    lemma_rot_set_contains(k, s, p1);
    lemma_rot_set_contains(k, s, q0);
    lemma_rot_set_contains(k, s, q1);
    assert forall|q: (int, int)| rot_set(k, s).contains(q) implies s.contains(
        rot_pt(rot_inv(k), q),
    ) && q == rot_pt(k, rot_pt(rot_inv(k), q)) by {
        lemma_rot_inv(k, rot_pt(rot_inv(k), q));
    }
}

/// The neighbor structure survives translation.
proof fn lemma_connected_tr(s: Set<(int, int)>, d: (int, int))
    requires
        connected_set(s),
    ensures
        connected_set(tr_set(s, d)),
{
    reveal(connected_set);
    let out = tr_set(s, d);
    assert forall|q: (int, int)| out.contains(q) implies exists|q2: (int, int)|
        out.contains(q2) && adjacent(q, q2) by {
        let p = (q.0 - d.0, q.1 - d.1);
        assert(s.contains(p));
        let p2 = choose|p2: (int, int)| s.contains(p2) && adjacent(p, p2);
        let q2 = tr_pt(p2, d);
        lemma_tr_set_contains(s, d, p2);
        assert(out.contains(q2) && adjacent(q, q2));
    }
}

/// The neighbor structure survives rotation.
proof fn lemma_connected_rot(s: Set<(int, int)>, k: int)
    requires
        0 <= k < 4,
        connected_set(s),
    ensures
        connected_set(rot_set(k, s)),
{
    reveal(connected_set);
    let out = rot_set(k, s);
    assert forall|q: (int, int)| out.contains(q) implies exists|q2: (int, int)|
        out.contains(q2) && adjacent(q, q2) by {
        let p = rot_pt(rot_inv(k), q);
        assert(s.contains(p));
        let p2 = choose|p2: (int, int)| s.contains(p2) && adjacent(p, p2);
        let q2 = rot_pt(k, p2);
        lemma_rot_set_contains(k, s, p2);
        lemma_rot_adjacent(k, p, p2);
        lemma_rot_inv(k, q);
        assert(rot_pt(k, p) == q);
        assert(out.contains(q2) && adjacent(q, q2));
    }
}

/// The neighbor structure survives rotation and translation.
pub proof fn lemma_connected_transform(s: Set<(int, int)>, k: int, d: (int, int))
    requires
        0 <= k < 4,
        connected_set(s),
    ensures
        connected_set(tr_set(rot_set(k, s), d)),
{
    lemma_connected_rot(s, k);
    lemma_connected_tr(rot_set(k, s), d);
}

} // verus!
