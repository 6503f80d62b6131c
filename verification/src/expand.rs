use vstd::prelude::*;

use crate::errors::PolyError;
use crate::geom::{adjacent, lemma_pset_contains, move_of, pset, pts_view, tr_pt, Point};
use crate::model::{axis, connected_set, is_max, is_min, lemma_pin_bounds, max_x, max_y, min_x,
    min_y, within_cap};
use crate::shape::{is_canon_grid, Shape};

verus! {

broadcast use vstd::set::group_set_axioms;

/// A legal growth move: a cell not yet occupied, adjacent to some occupied
/// cell.
pub open spec fn is_valid_move(s: Set<(int, int)>, q: (int, int)) -> bool {
    &&& !s.contains(q)
    &&& exists|p: (int, int)| s.contains(p) && adjacent(p, q)
}

/// `g` is the canonical grid of some single-cell extension of `s`.
pub open spec fn in_child_grids(s: Set<(int, int)>, g: Seq<u64>) -> bool {
    exists|q: (int, int)| #[trigger] is_valid_move(s, q) && is_canon_grid(s.insert(q), g)
}

/// The set of canonical grids held by a list of shapes.
pub open spec fn grids_of(v: Seq<Shape>) -> Set<Seq<u64>> {
    Set::new(|g: Seq<u64>| exists|i: int| 0 <= i < v.len() && (#[trigger] v[i]).rows() == g)
}

/// The set of canonical grids of all children of all shapes of a list.
pub open spec fn children_of(v: Seq<Shape>) -> Set<Seq<u64>> {
    Set::new(
        |g: Seq<u64>|
            exists|i: int| 0 <= i < v.len() && in_child_grids((#[trigger] v[i]).cells(), g),
    )
}

/// Some shape of the list has a child too wide or too tall for the packing
/// width.
pub open spec fn has_bad_child(v: Seq<Shape>) -> bool {
    exists|i: int, q: (int, int)|
        0 <= i < v.len() && #[trigger] is_valid_move(v[i].cells(), q) && !within_cap(
            v[i].cells().insert(q),
        )
}

/// What membership in a generation of size `n` means for one shape.
pub open spec fn gen_shape_ok(x: Shape, n: nat) -> bool {
    &&& x.inv()
    &&& x.size_spec() == n
    &&& n >= 2 ==> connected_set(x.cells())
    &&& x.corner().0 <= n - 1
    &&& x.corner().1 <= n - 1
}

/// Shapes with pairwise distinct canonical grids.
pub open spec fn distinct_grids(v: Seq<Shape>) -> bool {
    forall|i: int, j: int|
        0 <= i < v.len() && 0 <= j < v.len() && i != j ==> (#[trigger] v[i]).rows() != (
        #[trigger] v[j]).rows()
}

// ---------------------------------------------------------------------------
// counters
// ---------------------------------------------------------------------------

/// Saturating view of an unbounded count.
pub open spec fn sat64(n: nat) -> u64 {
    if n > u64::MAX {
        u64::MAX
    } else {
        n as u64
    }
}

/// Number of the first `m` moves of cell `p` that leave the occupied set.
pub open spec fn cnt_moves(p: (int, int), s: Set<(int, int)>, m: nat) -> nat
    decreases m,
{
    if m == 0 {
        0
    } else {
        cnt_moves(p, s, (m - 1) as nat) + if !s.contains(tr_pt(p, move_of(m - 1))) {
            1nat
        } else {
            0nat
        }
    }
}

/// Number of candidate sets formed from the first `i` cells of the list.
pub open spec fn cnt_pts(pts: Seq<(int, int)>, s: Set<(int, int)>, i: nat) -> nat
    decreases i,
{
    if i == 0 {
        0
    } else {
        cnt_pts(pts, s, (i - 1) as nat) + cnt_moves(pts[i - 1], s, 4)
    }
}

/// Canonicalizations one shape's expansion performs.
pub open spec fn shape_tried(x: Shape) -> nat {
    cnt_pts(x.pts(), x.cells(), x.pts().len())
}

/// Canonicalizations a whole list's expansion performs.
pub open spec fn shard_tried(v: Seq<Shape>) -> nat
    decreases v.len(),
{
    if v.len() == 0 {
        0
    } else {
        shard_tried(v.drop_last()) + shape_tried(v.last())
    }
}

/// Candidate moves examined over a whole list: four per cell.
pub open spec fn shard_moves(v: Seq<Shape>) -> nat
    decreases v.len(),
{
    if v.len() == 0 {
        0
    } else {
        shard_moves(v.drop_last()) + 4 * v.last().size_spec()
    }
}

/// Saturating addition.
pub fn sat_add(a: u64, b: u64) -> (r: u64)
    ensures
        r == sat64(a as nat + b as nat),
{
    if a > u64::MAX - b {
        u64::MAX
    } else {
        a + b
    }
}

/// Saturation commutes with addition.
pub proof fn lemma_sat_add(n: nat, k: nat)
    ensures
        sat64(sat64(n) as nat + k) == sat64(n + k),
{
}

/// Saturation commutes with addition of two saturated counts.
pub proof fn lemma_sat_add2(a: nat, b: nat)
    ensures
        sat64(sat64(a) as nat + sat64(b) as nat) == sat64(a + b),
{
}

// ---------------------------------------------------------------------------
// supporting lemmas
// ---------------------------------------------------------------------------

/// Adjacency is exactly reachability by one of the four unit moves.
pub proof fn lemma_adjacent_moves(p: (int, int), q: (int, int))
    ensures
        adjacent(p, q) <==> exists|m: int| 0 <= m < 4 && q == tr_pt(p, #[trigger] move_of(m)),
{
    if adjacent(p, q) {
        if q.0 == p.0 + 1 && q.1 == p.1 {
            assert(q == tr_pt(p, move_of(0)));
        } else if q.0 == p.0 - 1 && q.1 == p.1 {
            assert(q == tr_pt(p, move_of(1)));
        } else if q.0 == p.0 && q.1 == p.1 + 1 {
            assert(q == tr_pt(p, move_of(2)));
        } else {
            assert(q == tr_pt(p, move_of(3)));
        }
    }
}

/// Growing a shape by one legal move keeps every cell next to a neighbor.
pub proof fn lemma_connected_insert(s: Set<(int, int)>, q: (int, int), n: nat)
    requires
        s.finite(),
        s.len() == n,
        n >= 1,
        n >= 2 ==> connected_set(s),
        is_valid_move(s, q),
    ensures
        connected_set(s.insert(q)),
{
    reveal(crate::model::connected_set);
    let pw = choose|p: (int, int)| s.contains(p) && adjacent(p, q);
    let t = s.insert(q);
    assert forall|x: (int, int)| t.contains(x) implies exists|y: (int, int)|
        t.contains(y) && adjacent(x, y) by {
        if x == q {
            assert(t.contains(pw) && adjacent(q, pw));
        } else {
            assert(s.contains(x));
            if n >= 2 {
                let y = choose|y: (int, int)| s.contains(y) && adjacent(x, y);
                assert(t.contains(y) && adjacent(x, y));
            } else {
                assert(x == pw) by {
                    if x != pw {
                        assert(s.remove(x).contains(pw));
                        assert(s.remove(x).len() == 0);
                        assert(s.remove(x) =~= Set::empty()) by {
                            s.remove(x).lemma_len0_is_empty();
                        }
                    }
                }
                assert(t.contains(q) && adjacent(x, q));
            }
        }
    }
}

/// How the four corners move when one cell is added.
pub proof fn lemma_insert_extremes(ax: int, s: Set<(int, int)>, q: (int, int), mn: int, mx: int)
    requires
        is_min(ax, s, mn),
        is_max(ax, s, mx),
    ensures
        is_min(ax, s.insert(q), if axis(q, ax) < mn { axis(q, ax) } else { mn }),
        is_max(ax, s.insert(q), if axis(q, ax) > mx { axis(q, ax) } else { mx }),
{
    let t = s.insert(q);
    let w1 = choose|p: (int, int)| s.contains(p) && axis(p, ax) == mn;
    let w2 = choose|p: (int, int)| s.contains(p) && axis(p, ax) == mx;
    assert(t.contains(w1) && t.contains(w2) && t.contains(q));
}

/// A legal move widens each extent by at most one, and only away from the
/// occupied side.
pub proof fn lemma_child_cap(s: Set<(int, int)>, q: (int, int), b0: int, b1: int)
    requires
        is_min(0, s, 0),
        is_min(1, s, 0),
        is_max(0, s, b0),
        is_max(1, s, b1),
        b0 < 63,
        b1 < 63,
        is_valid_move(s, q),
    ensures
        within_cap(s.insert(q)),
{
    reveal(within_cap);
    let t = s.insert(q);
    let p = choose|p: (int, int)| s.contains(p) && adjacent(p, q);
    assert(-1 <= q.0 <= b0 + 1 && -1 <= q.1 <= b1 + 1);
    lemma_insert_extremes(0, s, q, 0, b0);
    lemma_insert_extremes(1, s, q, 0, b1);
    let n0 = if q.0 < 0 { q.0 } else { 0int };
    let x0 = if q.0 > b0 { q.0 } else { b0 };
    let n1 = if q.1 < 0 { q.1 } else { 0int };
    let x1 = if q.1 > b1 { q.1 } else { b1 };
    lemma_pin_bounds(t, n0, n1, x0, x1);
    assert(max_x(t) - min_x(t) == x0 - n0);
    assert(x0 - n0 <= b0 + 1);
    assert(x1 - n1 <= b1 + 1);
}

/// Pushing one point onto a list inserts its cell into the cell set.
pub proof fn lemma_pset_push(a: Seq<Point>, q: Point)
    ensures
        pset(a.push(q)) == pset(a).insert(q@),
        pts_view(a).no_duplicates() && !pset(a).contains(q@) ==> pts_view(
            a.push(q),
        ).no_duplicates(),
{
    let b = a.push(q);
    assert(pset(b) =~= pset(a).insert(q@)) by {
        assert forall|c: (int, int)| pset(b).contains(c) == pset(a).insert(q@).contains(c) by {
            lemma_pset_contains(b, c);
            lemma_pset_contains(a, c);
            if pset(b).contains(c) {
                let i = choose|i: int| 0 <= i < b.len() && (#[trigger] b[i])@ == c;
                if i < a.len() {
                    assert(a[i]@ == c);
                } else {
                    assert(c == q@);
                }
            }
            if pset(a).contains(c) {
                let i = choose|i: int| 0 <= i < a.len() && (#[trigger] a[i])@ == c;
                assert(b[i]@ == c);
            }
            if c == q@ {
                assert(b[a.len() as int]@ == c);
            }
        }
    }
    if pts_view(a).no_duplicates() && !pset(a).contains(q@) {
        assert forall|i: int, j: int|
            0 <= i < b.len() && 0 <= j < b.len() && i != j implies pts_view(b)[i] != pts_view(
        b)[j] by {
            assert(pts_view(b)[i] == b[i]@ && pts_view(b)[j] == b[j]@);
            if i < a.len() && j < a.len() {
                assert(pts_view(a)[i] == a[i]@ && pts_view(a)[j] == a[j]@);
            } else if i < a.len() {
                // j is the new point; equality would put q's cell in a
                if a[i]@ == q@ {
                    lemma_pset_contains(a, q@);
                }
            } else {
                if a[j]@ == q@ {
                    lemma_pset_contains(a, q@);
                }
            }
        }
    }
}

/// The growth moves already examined when the scan stands at cell `i`,
/// move `m`.
pub open spec fn tried_move(pts: Seq<(int, int)>, i: int, m: int, q: (int, int)) -> bool {
    exists|i2: int, m2: int|
        #![trigger pts[i2], move_of(m2)]
        {
            &&& 0 <= i2 < pts.len()
            &&& 0 <= m2 < 4
            &&& (i2 < i || (i2 == i && m2 < m))
            &&& q == tr_pt(pts[i2], move_of(m2))
        }
}

/// The canonical grids of the children found so far.
pub open spec fn partial_children(
    s: Set<(int, int)>,
    pts: Seq<(int, int)>,
    i: int,
    m: int,
) -> Set<Seq<u64>> {
    Set::new(
        |g: Seq<u64>|
            exists|q: (int, int)|
                {
                    &&& #[trigger] is_valid_move(s, q)
                    &&& tried_move(pts, i, m, q)
                    &&& is_canon_grid(s.insert(q), g)
                },
    )
}

// ---------------------------------------------------------------------------
// executable expansion
// ---------------------------------------------------------------------------

/// One step along the move table.
fn apply_move(p: Point, m: usize) -> (r: Point)
    requires
        m < 4,
        -1000 <= p@.0 <= 1000,
        -1000 <= p@.1 <= 1000,
    ensures
        r@ == tr_pt(p@, move_of(m as int)),
{
    if m == 0 {
        Point { x: p.x + 1, y: p.y }
    } else if m == 1 {
        Point { x: p.x - 1, y: p.y }
    } else if m == 2 {
        Point { x: p.x, y: p.y + 1 }
    } else {
        Point { x: p.x, y: p.y - 1 }
    }
}

/// Whether the cell of `q` is occupied in the list.
fn contains_pt(pts: &Vec<Point>, q: Point) -> (r: bool)
    ensures
        r == pset(pts@).contains(q@),
{
    let mut i: usize = 0;
    while i < pts.len()
        invariant
            i <= pts@.len(),
            forall|j: int| 0 <= j < i ==> (#[trigger] pts@[j])@ != q@,
        decreases pts@.len() - i,
    {
        let p = pts[i];
        if p.x == q.x && p.y == q.y {
            proof {
                lemma_pset_contains(pts@, q@);
            }
            return true;
        }
        i += 1;
    }
    proof {
        lemma_pset_contains(pts@, q@);
    }
    false
}

/// A fresh copy of the list with one more point.
fn copy_push(pts: &Vec<Point>, q: Point) -> (r: Vec<Point>)
    ensures
        r@ == pts@.push(q),
{
    let mut out: Vec<Point> = Vec::new();
    let mut i: usize = 0;
    while i < pts.len()
        invariant
            i <= pts@.len(),
            out@ == pts@.take(i as int),
        decreases pts@.len() - i,
    {
        out.push(pts[i]);
        proof {
            assert(out@ =~= pts@.take(i + 1));
        }
        i += 1;
    }
    out.push(q);
    proof {
        assert(pts@.take(pts@.len() as int) =~= pts@);
    }
    out
}

proof fn lemma_partial_empty(s: Set<(int, int)>, pts: Seq<(int, int)>, base: Set<Seq<u64>>)
    ensures
        base.union(partial_children(s, pts, 0, 0)) == base,
{
    assert(base.union(partial_children(s, pts, 0, 0)) =~= base);
}

proof fn lemma_partial_step(s: Set<(int, int)>, pts: Seq<(int, int)>, i: int, m: int)
    requires
        0 <= i < pts.len(),
        0 <= m < 4,
    ensures
        partial_children(s, pts, i, m + 1) == partial_children(s, pts, i, m).union(
            Set::new(
                |g: Seq<u64>|
                    is_valid_move(s, tr_pt(pts[i], move_of(m))) && is_canon_grid(
                        s.insert(tr_pt(pts[i], move_of(m))),
                        g,
                    ),
            ),
        ),
{
    let qn = tr_pt(pts[i], move_of(m));
    let rhs = partial_children(s, pts, i, m).union(
        Set::new(
            |g: Seq<u64>| is_valid_move(s, qn) && is_canon_grid(s.insert(qn), g),
        ),
    );
    assert(partial_children(s, pts, i, m + 1) =~= rhs) by {
        assert forall|g: Seq<u64>|
            partial_children(s, pts, i, m + 1).contains(g) == rhs.contains(g) by {
            if partial_children(s, pts, i, m + 1).contains(g) {
                let q = choose|q: (int, int)|
                    #[trigger] is_valid_move(s, q) && tried_move(pts, i, m + 1, q)
                        && is_canon_grid(s.insert(q), g);
                let (i2, m2) = choose|i2: int, m2: int|
                    #![trigger pts[i2], move_of(m2)]
                    {
                        &&& 0 <= i2 < pts.len()
                        &&& 0 <= m2 < 4
                        &&& (i2 < i || (i2 == i && m2 < m + 1))
                        &&& q == tr_pt(pts[i2], move_of(m2))
                    };
                if i2 == i && m2 == m {
                    assert(q == qn);
                } else {
                    assert(tried_move(pts, i, m, q));
                }
            }
            if rhs.contains(g) {
                if partial_children(s, pts, i, m).contains(g) {
                    let q = choose|q: (int, int)|
                        #[trigger] is_valid_move(s, q) && tried_move(pts, i, m, q)
                            && is_canon_grid(s.insert(q), g);
                    let (i2, m2) = choose|i2: int, m2: int|
                        #![trigger pts[i2], move_of(m2)]
                        {
                            &&& 0 <= i2 < pts.len()
                            &&& 0 <= m2 < 4
                            &&& (i2 < i || (i2 == i && m2 < m))
                            &&& q == tr_pt(pts[i2], move_of(m2))
                        };
                    assert(tried_move(pts, i, m + 1, q));
                } else {
                    assert(is_valid_move(s, qn) && is_canon_grid(s.insert(qn), g));
                    assert(qn == tr_pt(pts[i], move_of(m)));
                    assert(tried_move(pts, i, m + 1, qn));
                }
            }
        }
    }
}

proof fn lemma_partial_roll(s: Set<(int, int)>, pts: Seq<(int, int)>, i: int)
    requires
        0 <= i < pts.len(),
    ensures
        partial_children(s, pts, i, 4) == partial_children(s, pts, i + 1, 0),
        forall|q: (int, int)|
            tried_move(pts, i, 4, q) == tried_move(pts, i + 1, 0, q),
{
    assert forall|q: (int, int)|
        tried_move(pts, i, 4, q) == tried_move(pts, i + 1, 0, q) by {
        if tried_move(pts, i, 4, q) {
            let (i2, m2) = choose|i2: int, m2: int|
                #![trigger pts[i2], move_of(m2)]
                {
                    &&& 0 <= i2 < pts.len()
                    &&& 0 <= m2 < 4
                    &&& (i2 < i || (i2 == i && m2 < 4))
                    &&& q == tr_pt(pts[i2], move_of(m2))
                };
            assert(i2 < i + 1);
            assert(tried_move(pts, i + 1, 0, q));
        }
        if tried_move(pts, i + 1, 0, q) {
            let (i2, m2) = choose|i2: int, m2: int|
                #![trigger pts[i2], move_of(m2)]
                {
                    &&& 0 <= i2 < pts.len()
                    &&& 0 <= m2 < 4
                    &&& (i2 < i + 1)
                    &&& q == tr_pt(pts[i2], move_of(m2))
                };
            assert(tried_move(pts, i, 4, q));
        }
    }
    assert(partial_children(s, pts, i, 4) =~= partial_children(s, pts, i + 1, 0));
}

proof fn lemma_partial_final(s: Set<(int, int)>, pts: Seq<(int, int)>)
    requires
        s == pts.to_set(),
    ensures
        partial_children(s, pts, pts.len() as int, 0) == Set::new(
            |g: Seq<u64>| in_child_grids(s, g),
        ),
        forall|q: (int, int)| is_valid_move(s, q) ==> tried_move(pts, pts.len() as int, 0, q),
{
    assert forall|q: (int, int)| is_valid_move(s, q) implies tried_move(
        pts,
        pts.len() as int,
        0,
        q,
    ) by {
        let p = choose|p: (int, int)| s.contains(p) && adjacent(p, q);
        let i2 = choose|i2: int| 0 <= i2 < pts.len() && pts[i2] == p;
        lemma_adjacent_moves(p, q);
        let m2 = choose|m: int| 0 <= m < 4 && q == tr_pt(p, #[trigger] move_of(m));
        assert(q == tr_pt(pts[i2], move_of(m2)));
    }
    assert(partial_children(s, pts, pts.len() as int, 0) =~= Set::new(
        |g: Seq<u64>| in_child_grids(s, g),
    )) by {
        assert forall|g: Seq<u64>|
            partial_children(s, pts, pts.len() as int, 0).contains(g) == in_child_grids(s, g) by {
            if partial_children(s, pts, pts.len() as int, 0).contains(g) {
            }
            if in_child_grids(s, g) {
                let q = choose|q: (int, int)|
                    #[trigger] is_valid_move(s, q) && is_canon_grid(s.insert(q), g);
            }
        }
    }
}


/// Canonicalize one grown point list into a generation-`n + 1` shape.
#[verifier::rlimit(100)]
fn grow_child(
    child: Vec<Point>,
    n: usize,
    Ghost(cells): Ghost<Set<(int, int)>>,
    Ghost(qv): Ghost<(int, int)>,
    Ghost(b0): Ghost<int>,
    Ghost(b1): Ghost<int>,
) -> (r: Result<Shape, PolyError>)
    requires
        pset(child@) == cells.insert(qv),
        pts_view(child@).no_duplicates(),
        child@.len() == n + 1,
        1 <= n < usize::MAX,
        connected_set(cells.insert(qv)),
        is_min(0, cells, 0),
        is_min(1, cells, 0),
        is_max(0, cells, b0),
        is_max(1, cells, b1),
        0 <= b0 <= n - 1,
        0 <= b1 <= n - 1,
        b0 < 64,
        b1 < 64,
        -1 <= qv.0 <= b0 + 1,
        -1 <= qv.1 <= b1 + 1,
    ensures
        match r {
            Ok(sh) => {
                &&& gen_shape_ok(sh, n as nat + 1)
                &&& is_canon_grid(cells.insert(qv), sh.rows())
                &&& within_cap(cells.insert(qv))
            },
            Err(e) => {
                &&& e == (PolyError::CapacityExceeded { size: (n + 1) as usize })
                &&& !within_cap(cells.insert(qv))
            },
        },
{
    let ghost cs = cells.insert(qv);
    proof {
        lemma_insert_extremes(0, cells, qv, 0, b0);
        lemma_insert_extremes(1, cells, qv, 0, b1);
        let n0 = if qv.0 < 0 {
            qv.0
        } else {
            0int
        };
        let x0 = if qv.0 > b0 {
            qv.0
        } else {
            b0
        };
        let n1 = if qv.1 < 0 {
            qv.1
        } else {
            0int
        };
        let x1 = if qv.1 > b1 {
            qv.1
        } else {
            b1
        };
        lemma_pin_bounds(cs, n0, n1, x0, x1);
        assert(max_x(cs) - min_x(cs) <= b0 + 1);
        assert(max_y(cs) - min_y(cs) <= b1 + 1);
    }
    match Shape::new(child) {
        Err(e) => {
            proof {
                assert(within_cap(cs) ==> false);
            }
            Err(e)
        },
        Ok(sh) => {
            proof {
                assert(gen_shape_ok(sh, n as nat + 1)) by {
                    assert(max_x(cs) - min_x(cs) <= n);
                    assert(max_y(cs) - min_y(cs) <= n);
                    assert(min_x(cs) <= 0 && min_y(cs) <= 0) by {
                        assert(cs.contains((0, 0)) || true);
                        assert(min_x(cs) == (if qv.0 < 0 { qv.0 } else { 0int }));
                        assert(min_y(cs) == (if qv.1 < 0 { qv.1 } else { 0int }));
                    }
                }
            }
            Ok(sh)
        },
    }
}

/// Examine one growth move of one cell: count it, and canonicalize and
/// record the grown shape when the move leaves the occupied set.
#[verifier::rlimit(100)]
fn try_move(
    pts: &Vec<Point>,
    i: usize,
    m: usize,
    n: usize,
    out: &mut Vec<Shape>,
    td: u64,
    Ghost(cells): Ghost<Set<(int, int)>>,
    Ghost(b0): Ghost<int>,
    Ghost(b1): Ghost<int>,
) -> (r: Result<u64, PolyError>)
    requires
        cells == pset(pts@),
        pts_view(pts@).no_duplicates(),
        pts@.len() == n,
        i < n,
        m < 4,
        1 <= n < usize::MAX,
        cells.finite(),
        cells.len() == n,
        n >= 2 ==> connected_set(cells),
        forall|j: int|
            0 <= j < pts@.len() ==> 0 <= (#[trigger] pts@[j])@.0 < 64 && 0 <= pts@[j]@.1 < 64,
        is_min(0, cells, 0),
        is_min(1, cells, 0),
        is_max(0, cells, b0),
        is_max(1, cells, b1),
        0 <= b0 <= n - 1,
        0 <= b1 <= n - 1,
        b0 < 64,
        b1 < 64,
        forall|j: int|
            0 <= j < old(out)@.len() ==> gen_shape_ok(#[trigger] old(out)@[j], n as nat + 1),
        distinct_grids(old(out)@),
    ensures
        forall|j: int|
            0 <= j < final(out)@.len() ==> gen_shape_ok(#[trigger] final(out)@[j], n as nat + 1),
        distinct_grids(final(out)@),
        ({
            let q = tr_pt(pts_view(pts@)[i as int], move_of(m as int));
            match r {
                Ok(td2) => {
                    &&& td2 == sat64(
                        td as nat + (if !cells.contains(q) {
                            1nat
                        } else {
                            0nat
                        }),
                    )
                    &&& grids_of(final(out)@) == grids_of(old(out)@).union(
                        Set::new(
                            |g: Seq<u64>|
                                is_valid_move(cells, q) && is_canon_grid(cells.insert(q), g),
                        ),
                    )
                    &&& (is_valid_move(cells, q) ==> within_cap(cells.insert(q)))
                },
                Err(e) => {
                    &&& e == (PolyError::CapacityExceeded { size: (n + 1) as usize })
                    &&& is_valid_move(cells, q) && !within_cap(cells.insert(q))
                },
            }
        }),
{
    let p = pts[i];
    let q = apply_move(p, m);
    let ghost qv = tr_pt(pts_view(pts@)[i as int], move_of(m as int));
    proof {
        assert(pts_view(pts@)[i as int] == p@);
        assert(q@ == qv);
    }
    if contains_pt(pts, q) {
        proof {
            assert(!is_valid_move(cells, qv));
            let es = Set::new(
                |g: Seq<u64>| is_valid_move(cells, qv) && is_canon_grid(cells.insert(qv), g),
            );
            assert(grids_of(out@).union(es) =~= grids_of(out@));
        }
        return Ok(td);
    }
    let td2 = sat_add(td, 1);
    proof {
        assert(is_valid_move(cells, qv)) by {
            lemma_pset_contains(pts@, p@);
            assert(cells.contains(p@));
            assert(adjacent(p@, qv));
        }
    }
    let child = copy_push(pts, q);
    proof {
        lemma_pset_push(pts@, q);
        lemma_connected_insert(cells, qv, n as nat);
        assert(-1 <= qv.0 <= b0 + 1 && -1 <= qv.1 <= b1 + 1);
    }
    match grow_child(child, n, Ghost(cells), Ghost(qv), Ghost(b0), Ghost(b1)) {
        Err(e) => {
            Err(e)
        },
        Ok(sh) => {
            let ghost pre = out@;
            let _ = insert_shape(out, sh);
            proof {
                let es = Set::new(
                    |g: Seq<u64>| is_valid_move(cells, qv) && is_canon_grid(cells.insert(qv), g),
                );
                assert(es =~= Set::empty().insert(sh.rows())) by {
                    assert forall|g: Seq<u64>|
                        es.contains(g) == Set::empty().insert(sh.rows()).contains(g) by {
                        if es.contains(g) {
                            crate::shape::lemma_canon_grid_unique(cells.insert(qv), g, sh.rows());
                        }
                        if g == sh.rows() {
                            assert(is_canon_grid(cells.insert(qv), g));
                        }
                    }
                }
                assert(grids_of(out@) =~= grids_of(pre).union(es));
            }
            Ok(td2)
        },
    }
}

/// Deduplicating insertion: a no-op when an equal canonical grid is already
/// present.
pub fn insert_shape(out: &mut Vec<Shape>, sh: Shape) -> (added: bool)
    ensures
        grids_of(final(out)@) == grids_of(old(out)@).insert(sh.rows()),
        added == !grids_of(old(out)@).contains(sh.rows()),
        added ==> final(out)@ == old(out)@.push(sh),
        !added ==> final(out)@ == old(out)@,
{
    let sg = sh.grid();
    let mut i: usize = 0;
    while i < out.len()
        invariant
            i <= out@.len(),
            sg@ == sh.rows(),
            forall|j: int| 0 <= j < i ==> (#[trigger] out@[j]).rows() != sh.rows(),
        decreases out@.len() - i,
    {
        let g = out[i].grid();
        if crate::shape::grids_equal(g, sg) {
            proof {
                assert(grids_of(out@).contains(sh.rows()));
                assert(grids_of(out@) =~= grids_of(out@).insert(sh.rows()));
            }
            return false;
        }
        i += 1;
    }
    proof {
        if grids_of(out@).contains(sh.rows()) {
            let j = choose|j: int| 0 <= j < out@.len() && (#[trigger] out@[j]).rows() == sh.rows();
        }
    }
    let ghost pre = out@;
    out.push(sh);
    proof {
        assert(grids_of(out@) =~= grids_of(pre).insert(sh.rows())) by {
            assert forall|g: Seq<u64>|
                grids_of(out@).contains(g) == grids_of(pre).insert(sh.rows()).contains(g) by {
                if grids_of(out@).contains(g) {
                    let j = choose|j: int|
                        0 <= j < out@.len() && (#[trigger] out@[j]).rows() == g;
                    if j < pre.len() {
                        assert(pre[j].rows() == g);
                    }
                }
                if grids_of(pre).contains(g) {
                    let j = choose|j: int| 0 <= j < pre.len() && (#[trigger] pre[j]).rows() == g;
                    assert(out@[j].rows() == g);
                }
                if g == sh.rows() {
                    assert(out@[pre.len() as int].rows() == g);
                }
            }
        }
    }
    true
}

/// What a shard's expansion returns: the deduplicated canonical shapes of
/// the next generation, and the two examination counters.
pub struct ShardResult {
    pub shapes: Vec<Shape>,
    pub points_tried: u64,
    pub polys_tried: u64,
}

/// The full contract of a shard expansion, shared by the sequential and the
/// parallel paths.
pub open spec fn shard_post(sh: Seq<Shape>, n: nat, r: Result<ShardResult, PolyError>) -> bool {
    match r {
        Ok(res) => {
            &&& grids_of(res.shapes@) == children_of(sh)
            &&& distinct_grids(res.shapes@)
            &&& forall|j: int|
                0 <= j < res.shapes@.len() ==> gen_shape_ok(#[trigger] res.shapes@[j], n + 1)
            &&& res.points_tried == sat64(shard_moves(sh))
            &&& res.polys_tried == sat64(shard_tried(sh))
            &&& !has_bad_child(sh)
        },
        Err(e) => {
            &&& e == (PolyError::CapacityExceeded { size: (n + 1) as usize })
            &&& has_bad_child(sh)
        },
    }
}

/// Expand one shape: try all four moves of every cell, canonicalize each
/// grown point set, and record the distinct results.
#[verifier::rlimit(100)]
fn expand_one(shape: &Shape, n: usize, out: &mut Vec<Shape>, mv: u64, td: u64) -> (r: Result<
    (u64, u64),
    PolyError,
>)
    requires
        gen_shape_ok(*shape, n as nat),
        1 <= n < usize::MAX,
        forall|j: int|
            0 <= j < old(out)@.len() ==> gen_shape_ok(#[trigger] old(out)@[j], n as nat + 1),
        distinct_grids(old(out)@),
    ensures
        forall|j: int|
            0 <= j < final(out)@.len() ==> gen_shape_ok(#[trigger] final(out)@[j], n as nat + 1),
        distinct_grids(final(out)@),
        match r {
            Ok(c) => {
                &&& grids_of(final(out)@) == grids_of(old(out)@).union(
                    Set::new(|g: Seq<u64>| in_child_grids(shape.cells(), g)),
                )
                &&& c.0 == sat64(mv as nat + 4 * shape.size_spec())
                &&& c.1 == sat64(td as nat + shape_tried(*shape))
                &&& forall|q: (int, int)|
                    #[trigger] is_valid_move(shape.cells(), q) ==> within_cap(
                        shape.cells().insert(q),
                    )
            },
            Err(e) => {
                &&& e == (PolyError::CapacityExceeded { size: (n + 1) as usize })
                &&& exists|q: (int, int)|
                    #[trigger] is_valid_move(shape.cells(), q) && !within_cap(
                        shape.cells().insert(q),
                    )
            },
        },
{
    let pts = shape.points();
    let bbp = shape.bounds();
    let ghost cells = shape.cells();
    let ghost ptsv = shape.pts();
    let ghost b0 = shape.corner().0;
    let ghost b1 = shape.corner().1;
    let ghost out0 = out@;
    proof {
        assert(pts@.len() == n) by {
            assert(pts_view(pts@).len() == ptsv.len());
        }
        assert(cells == pset(pts@)) by {
            crate::geom::lemma_pset_def(pts@);
        }
        assert forall|j: int| 0 <= j < pts@.len() implies 0 <= (#[trigger] pts@[j])@.0 < 64 && 0
            <= pts@[j]@.1 < 64 by {
            lemma_pset_contains(pts@, pts@[j]@);
            assert(cells.contains(pts@[j]@));
        }
        lemma_partial_empty(cells, ptsv, grids_of(out0));
        assert(grids_of(out@) == grids_of(out0).union(partial_children(cells, ptsv, 0, 0)));
    }
    let mut mvx = mv;
    let mut tdx = td;
    let mut i: usize = 0;
    while i < pts.len()
        invariant
            cells == shape.cells(),
            ptsv == shape.pts(),
            out0 == old(out)@,
            cells == pset(pts@),
            pts_view(pts@) == ptsv,
            pts_view(pts@).no_duplicates(),
            pts@.len() == n,
            i <= n,
            1 <= n < usize::MAX,
            cells.finite(),
            cells.len() == n,
            n >= 2 ==> connected_set(cells),
            forall|j: int|
                0 <= j < pts@.len() ==> 0 <= (#[trigger] pts@[j])@.0 < 64 && 0 <= pts@[j]@.1 < 64,
            is_min(0, cells, 0),
            is_min(1, cells, 0),
            is_max(0, cells, b0),
            is_max(1, cells, b1),
            0 <= b0 <= n - 1 || (n == 1 && b0 == 0),
            0 <= b1 <= n - 1 || (n == 1 && b1 == 0),
            b0 <= n - 1,
            b1 <= n - 1,
            b0 < 64,
            b1 < 64,
            mvx == sat64(mv as nat + 4 * (i as nat)),
            tdx == sat64(td as nat + cnt_pts(ptsv, cells, i as nat)),
            grids_of(out@) == grids_of(out0).union(partial_children(cells, ptsv, i as int, 0)),
            forall|q: (int, int)|
                #[trigger] is_valid_move(cells, q) && tried_move(ptsv, i as int, 0, q)
                    ==> within_cap(cells.insert(q)),
            forall|j: int| 0 <= j < out@.len() ==> gen_shape_ok(#[trigger] out@[j], n as nat + 1),
            distinct_grids(out@),
        decreases pts@.len() - i,
    {
        let mut m: usize = 0;
        while m < 4
            invariant
                cells == shape.cells(),
                ptsv == shape.pts(),
                out0 == old(out)@,
                cells == pset(pts@),
                pts_view(pts@) == ptsv,
                pts_view(pts@).no_duplicates(),
                pts@.len() == n,
                i < n,
                m <= 4,
                1 <= n < usize::MAX,
                cells.finite(),
                cells.len() == n,
                n >= 2 ==> connected_set(cells),
                forall|j: int|
                    0 <= j < pts@.len() ==> 0 <= (#[trigger] pts@[j])@.0 < 64 && 0 <= pts@[j]@.1
                        < 64,
                is_min(0, cells, 0),
                is_min(1, cells, 0),
                is_max(0, cells, b0),
                is_max(1, cells, b1),
                b0 <= n - 1,
                b1 <= n - 1,
                b0 < 64,
                b1 < 64,
                mvx == sat64(mv as nat + 4 * (i as nat) + (m as nat)),
                tdx == sat64(
                    td as nat + cnt_pts(ptsv, cells, i as nat) + cnt_moves(
                        ptsv[i as int],
                        cells,
                        m as nat,
                    ),
                ),
                grids_of(out@) == grids_of(out0).union(
                    partial_children(cells, ptsv, i as int, m as int),
                ),
                forall|q: (int, int)|
                    #[trigger] is_valid_move(cells, q) && tried_move(ptsv, i as int, m as int, q)
                        ==> within_cap(cells.insert(q)),
                forall|j: int|
                    0 <= j < out@.len() ==> gen_shape_ok(#[trigger] out@[j], n as nat + 1),
                distinct_grids(out@),
            decreases 4 - m,
        {
            let ghost pre = out@;
            let ghost qv = tr_pt(ptsv[i as int], move_of(m as int));
            mvx = sat_add(mvx, 1);
            proof {
                lemma_sat_add((mv as nat + 4 * (i as nat) + (m as nat)) as nat, 1);
            }
            let tr = try_move(pts, i, m, n, out, tdx, Ghost(cells), Ghost(b0), Ghost(b1));
            proof {
                lemma_partial_step(cells, ptsv, i as int, m as int);
            }
            match tr {
                Ok(td2) => {
                    tdx = td2;
                    proof {
                        let delta: nat = if !cells.contains(qv) {
                            1nat
                        } else {
                            0nat
                        };
                        assert(cnt_moves(ptsv[i as int], cells, (m + 1) as nat) == cnt_moves(
                            ptsv[i as int],
                            cells,
                            m as nat,
                        ) + delta);
                        lemma_sat_add(
                            (td as nat + cnt_pts(ptsv, cells, i as nat) + cnt_moves(
                                ptsv[i as int],
                                cells,
                                m as nat,
                            )) as nat,
                            delta,
                        );
                        assert(grids_of(out@) == grids_of(out0).union(
                            partial_children(cells, ptsv, i as int, m as int + 1),
                        )) by {
                            let es = Set::new(
                                |g: Seq<u64>|
                                    is_valid_move(cells, qv) && is_canon_grid(
                                        cells.insert(qv),
                                        g,
                                    ),
                            );
                            assert(grids_of(out@) == grids_of(pre).union(es));
                            assert(grids_of(out0).union(
                                partial_children(cells, ptsv, i as int, m as int),
                            ).union(es) =~= grids_of(out0).union(
                                partial_children(cells, ptsv, i as int, m as int).union(es),
                            ));
                        }
                        assert forall|q: (int, int)|
                            #[trigger] is_valid_move(cells, q) && tried_move(
                                ptsv,
                                i as int,
                                m as int + 1,
                                q,
                            ) implies within_cap(cells.insert(q)) by {
                            if q != qv {
                                assert(tried_move(ptsv, i as int, m as int, q));
                            }
                        }
                    }
                },
                Err(e) => {
                    proof {
                        assert(is_valid_move(cells, qv) && !within_cap(cells.insert(qv)));
                    }
                    return Err(e);
                },
            }
            m += 1;
        }
        proof {
            lemma_partial_roll(cells, ptsv, i as int);
            assert(cnt_pts(ptsv, cells, (i + 1) as nat) == cnt_pts(ptsv, cells, i as nat)
                + cnt_moves(ptsv[i as int], cells, 4));
        }
        i += 1;
    }
    proof {
        assert(cells == ptsv.to_set());
        lemma_partial_final(cells, ptsv);
        assert(cnt_pts(ptsv, cells, n as nat) == shape_tried(*shape));
        assert(partial_children(cells, ptsv, n as int, 0) == Set::new(
            |g: Seq<u64>| in_child_grids(cells, g),
        ));
    }
    Ok((mvx, tdx))
}

/// Expand every shape of a shard, deduplicating across the whole shard and
/// summing the counters.
#[verifier::rlimit(100)]
pub fn expand_shard(shard: &[Shape], n: usize) -> (r: Result<ShardResult, PolyError>)
    requires
        1 <= n < usize::MAX,
        forall|j: int| 0 <= j < shard@.len() ==> gen_shape_ok(#[trigger] shard@[j], n as nat),
    ensures
        shard_post(shard@, n as nat, r),
{
    let mut shapes: Vec<Shape> = Vec::new();
    let mut mv: u64 = 0;
    let mut td: u64 = 0;
    let mut i: usize = 0;
    proof {
        assert(shard@.take(0) =~= Seq::<Shape>::empty());
        assert(grids_of(shapes@) =~= children_of(shard@.take(0)));
    }
    while i < shard.len()
        invariant
            i <= shard@.len(),
            1 <= n < usize::MAX,
            forall|j: int| 0 <= j < shard@.len() ==> gen_shape_ok(#[trigger] shard@[j], n as nat),
            mv == sat64(shard_moves(shard@.take(i as int))),
            td == sat64(shard_tried(shard@.take(i as int))),
            grids_of(shapes@) == children_of(shard@.take(i as int)),
            distinct_grids(shapes@),
            forall|j: int|
                0 <= j < shapes@.len() ==> gen_shape_ok(#[trigger] shapes@[j], n as nat + 1),
            forall|q: (int, int), j: int|
                0 <= j < i && #[trigger] is_valid_move(shard@[j].cells(), q) ==> within_cap(
                    shard@[j].cells().insert(q),
                ),
        decreases shard@.len() - i,
    {
        let sh = vstd::slice::slice_index_get(shard, i);
        let res = expand_one(sh, n, &mut shapes, mv, td);
        match res {
            Ok(c) => {
                proof {
                    let t0 = shard@.take(i as int);
                    let t1 = shard@.take(i as int + 1);
                    assert(t1.drop_last() =~= t0);
                    assert(t1.last() == shard@[i as int]);
                    assert(shard_moves(t1) == shard_moves(t0) + 4 * shard@[i as int].size_spec());
                    assert(shard_tried(t1) == shard_tried(t0) + shape_tried(shard@[i as int]));
                    lemma_sat_add2(shard_moves(t0), 4 * shard@[i as int].size_spec());
                    assert(c.0 == sat64(mv as nat + 4 * shard@[i as int].size_spec()));
                    lemma_sat_add(shard_moves(t0), 4 * shard@[i as int].size_spec())
                }
                mv = c.0;
                td = c.1;
                proof {
                    let t0 = shard@.take(i as int);
                    let t1 = shard@.take(i as int + 1);
                    lemma_sat_add(shard_tried(t0), shape_tried(shard@[i as int]));
                    assert(children_of(t1) =~= children_of(t0).union(
                        Set::new(|g: Seq<u64>| in_child_grids(shard@[i as int].cells(), g)),
                    )) by {
                        assert forall|g: Seq<u64>|
                            children_of(t1).contains(g) == children_of(t0).union(
                                Set::new(
                                    |g2: Seq<u64>|
                                        in_child_grids(shard@[i as int].cells(), g2),
                                ),
                            ).contains(g) by {
                            if children_of(t1).contains(g) {
                                let j = choose|j: int|
                                    0 <= j < t1.len() && in_child_grids(
                                        (#[trigger] t1[j]).cells(),
                                        g,
                                    );
                                if j < i as int {
                                    assert(t0[j] == t1[j]);
                                    assert(children_of(t0).contains(g));
                                }
                            }
                            if children_of(t0).contains(g) {
                                let j = choose|j: int|
                                    0 <= j < t0.len() && in_child_grids(
                                        (#[trigger] t0[j]).cells(),
                                        g,
                                    );
                                assert(t1[j] == t0[j]);
                                assert(children_of(t1).contains(g));
                            }
                            if in_child_grids(shard@[i as int].cells(), g) {
                                assert(t1[i as int] == shard@[i as int]);
                                assert(children_of(t1).contains(g));
                            }
                        }
                    }
                }
            },
            Err(e) => {
                proof {
                    let q = choose|q: (int, int)|
                        #[trigger] is_valid_move(shard@[i as int].cells(), q) && !within_cap(
                            shard@[i as int].cells().insert(q),
                        );
                    assert(has_bad_child(shard@));
                }
                return Err(e);
            },
        }
        i += 1;
    }
    proof {
        assert(shard@.take(shard@.len() as int) =~= shard@);
        assert(!has_bad_child(shard@)) by {
            if has_bad_child(shard@) {
                let (j, q) = choose|j: int, q: (int, int)|
                    0 <= j < shard@.len() && #[trigger] is_valid_move(shard@[j].cells(), q)
                        && !within_cap(shard@[j].cells().insert(q));
            }
        }
    }
    Ok(ShardResult { shapes, points_tried: mv, polys_tried: td })
}

} // verus!
