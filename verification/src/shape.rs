use vstd::prelude::*;

use crate::errors::PolyError;
use crate::geom::{lemma_pset_contains, lemma_rot_inv, pset, pts_view, rot_inv, rot_pt, tr_pt,
    Point};
use crate::grid::{grid_ok, lex_lt_exec, lemma_grid_unique, lemma_pick4_same_members, pack_grid,
    pick2, pick4};
use crate::model::{cand_set, connected_set, is_max, is_min, lemma_cand_of_cand, lemma_cand_tr,
    lemma_connected_transform, lemma_extreme_rot, lemma_extreme_tr, lemma_pin_bounds,
    lemma_tr_set_finite, max_x, max_y, min_x, min_y, norm_set, rot_set, tr_set, wf_pts,
    within_cap};

verus! {

broadcast use vstd::set::group_set_axioms;

/// `g` is the grid the canonicalizer keeps for the cell set `s`: the
/// lexicographically smallest of the four candidate frames' packed grids.
pub open spec fn is_canon_grid(s: Set<(int, int)>, g: Seq<u64>) -> bool {
    exists|gs: (Seq<u64>, Seq<u64>, Seq<u64>, Seq<u64>)|
        {
            &&& #[trigger] grid_ok(gs.0, cand_set(s, 0))
            &&& grid_ok(gs.1, cand_set(s, 1))
            &&& grid_ok(gs.2, cand_set(s, 2))
            &&& grid_ok(gs.3, cand_set(s, 3))
            &&& g == pick4(gs.0, gs.1, gs.2, gs.3)
        }
}

/// A cell set has at most one canonical grid.
pub proof fn lemma_canon_grid_unique(s: Set<(int, int)>, ga: Seq<u64>, gb: Seq<u64>)
    requires
        is_canon_grid(s, ga),
        is_canon_grid(s, gb),
    ensures
        ga == gb,
{
    let a = choose|gs: (Seq<u64>, Seq<u64>, Seq<u64>, Seq<u64>)|
        {
            &&& #[trigger] grid_ok(gs.0, cand_set(s, 0))
            &&& grid_ok(gs.1, cand_set(s, 1))
            &&& grid_ok(gs.2, cand_set(s, 2))
            &&& grid_ok(gs.3, cand_set(s, 3))
            &&& ga == pick4(gs.0, gs.1, gs.2, gs.3)
        };
    let b = choose|gs: (Seq<u64>, Seq<u64>, Seq<u64>, Seq<u64>)|
        {
            &&& #[trigger] grid_ok(gs.0, cand_set(s, 0))
            &&& grid_ok(gs.1, cand_set(s, 1))
            &&& grid_ok(gs.2, cand_set(s, 2))
            &&& grid_ok(gs.3, cand_set(s, 3))
            &&& gb == pick4(gs.0, gs.1, gs.2, gs.3)
        };
    lemma_grid_unique(a.0, b.0, cand_set(s, 0));
    lemma_grid_unique(a.1, b.1, cand_set(s, 1));
    lemma_grid_unique(a.2, b.2, cand_set(s, 2));
    lemma_grid_unique(a.3, b.3, cand_set(s, 3));
}

// ---------------------------------------------------------------------------
// executable helpers
// ---------------------------------------------------------------------------

/// Corners of the axis-aligned bounding box of a non-empty point list.
fn bounds_of(pts: &Vec<Point>) -> (r: (i32, i32, i32, i32))
    requires
        pts@.len() >= 1,
    ensures
        is_min(0, pset(pts@), r.0 as int),
        is_min(1, pset(pts@), r.1 as int),
        is_max(0, pset(pts@), r.2 as int),
        is_max(1, pset(pts@), r.3 as int),
        r.0 <= r.2,
        r.1 <= r.3,
{
    let mut mnx = pts[0].x;
    let mut mny = pts[0].y;
    let mut mxx = pts[0].x;
    let mut mxy = pts[0].y;
    let mut i: usize = 1;
    while i < pts.len()
        invariant
            1 <= i <= pts@.len(),
            exists|j: int| 0 <= j < i && (#[trigger] pts@[j])@.0 == mnx as int,
            exists|j: int| 0 <= j < i && (#[trigger] pts@[j])@.1 == mny as int,
            exists|j: int| 0 <= j < i && (#[trigger] pts@[j])@.0 == mxx as int,
            exists|j: int| 0 <= j < i && (#[trigger] pts@[j])@.1 == mxy as int,
            forall|j: int|
                0 <= j < i ==> mnx as int <= (#[trigger] pts@[j])@.0 <= mxx as int && mny as int
                    <= pts@[j]@.1 <= mxy as int,
        decreases pts@.len() - i,
    {
        let p = pts[i];
        if p.x < mnx {
            mnx = p.x;
        }
        if p.y < mny {
            mny = p.y;
        }
        if p.x > mxx {
            mxx = p.x;
        }
        if p.y > mxy {
            mxy = p.y;
        }
        i += 1;
    }
    proof {
        let s = pset(pts@);
        assert forall|q: (int, int)| s.contains(q) implies mnx as int <= q.0 <= mxx as int
            && mny as int <= q.1 <= mxy as int by {
            lemma_pset_contains(pts@, q);
        }
        let jx = choose|j: int| 0 <= j < pts@.len() && (#[trigger] pts@[j])@.0 == mnx as int;
        lemma_pset_contains(pts@, pts@[jx]@);
        let jy = choose|j: int| 0 <= j < pts@.len() && (#[trigger] pts@[j])@.1 == mny as int;
        lemma_pset_contains(pts@, pts@[jy]@);
        let kx = choose|j: int| 0 <= j < pts@.len() && (#[trigger] pts@[j])@.0 == mxx as int;
        lemma_pset_contains(pts@, pts@[kx]@);
        let ky = choose|j: int| 0 <= j < pts@.len() && (#[trigger] pts@[j])@.1 == mxy as int;
        lemma_pset_contains(pts@, pts@[ky]@);
    }
    (mnx, mny, mxx, mxy)
}

/// The pointwise image of a point list under a quarter turn followed by a
/// translation, at the level of cell sets.
proof fn lemma_pset_map(a: Seq<Point>, b: Seq<Point>, k: int, d: (int, int))
    requires
        0 <= k < 4,
        b.len() == a.len(),
        forall|i: int| 0 <= i < a.len() ==> (#[trigger] b[i])@ == tr_pt(rot_pt(k, a[i]@), d),
    ensures
        pset(b) == tr_set(rot_set(k, pset(a)), d),
        pts_view(a).no_duplicates() ==> pts_view(b).no_duplicates(),
{
    let sa = pset(a);
    assert(pset(b) =~= tr_set(rot_set(k, sa), d)) by {
        assert forall|q: (int, int)| pset(b).contains(q) == tr_set(rot_set(k, sa), d).contains(
            q,
        ) by {
            lemma_pset_contains(b, q);
            if pset(b).contains(q) {
                let i = choose|i: int| 0 <= i < b.len() && (#[trigger] b[i])@ == q;
                lemma_rot_inv(k, a[i]@);
                assert((q.0 - d.0, q.1 - d.1) == rot_pt(k, a[i]@));
                lemma_pset_contains(a, a[i]@);
                assert(rot_set(k, sa).contains((q.0 - d.0, q.1 - d.1)));
            }
            if tr_set(rot_set(k, sa), d).contains(q) {
                let p = rot_pt(rot_inv(k), (q.0 - d.0, q.1 - d.1));
                assert(sa.contains(p));
                lemma_pset_contains(a, p);
                let i = choose|i: int| 0 <= i < a.len() && (#[trigger] a[i])@ == p;
                lemma_rot_inv(k, (q.0 - d.0, q.1 - d.1));
                assert(b[i]@ == q);
                lemma_pset_contains(b, q);
            }
        }
    }
    if pts_view(a).no_duplicates() {
        assert forall|i: int, j: int|
            0 <= i < b.len() && 0 <= j < b.len() && i != j implies pts_view(b)[i] != pts_view(
            b,
        )[j] by {
            if b[i]@ == b[j]@ {
                lemma_rot_inv(k, a[i]@);
                lemma_rot_inv(k, a[j]@);
                assert(rot_pt(k, a[i]@) == rot_pt(k, a[j]@));
                assert(a[i]@ == a[j]@);
                assert(pts_view(a)[i] == pts_view(a)[j]);
            }
            assert(pts_view(b)[i] == b[i]@ && pts_view(b)[j] == b[j]@);
        }
    }
}

/// The translation offset that realigns rotation `k` of a grid of extents
/// `(w, h)` with the origin.
pub open spec fn realign(k: int, w: int, h: int) -> (int, int) {
    if k == 0 {
        (0, 0)
    } else if k == 1 {
        (h, 0)
    } else if k == 2 {
        (w, h)
    } else {
        (0, w)
    }
}

/// One candidate frame: rotate the normalized points by `k` quarter turns,
/// realign with the origin, and pack the result into a bit grid.
#[verifier::rlimit(100)]
fn make_candidate(base: &Vec<Point>, k: usize, w: i32, h: i32) -> (r: (Vec<Point>, Vec<u64>))
    requires
        k < 4,
        0 <= w < 64,
        0 <= h < 64,
        base@.len() >= 1,
        forall|i: int|
            0 <= i < base@.len() ==> 0 <= (#[trigger] base@[i])@.0 <= w as int && 0
                <= base@[i]@.1 <= h as int,
        is_min(0, pset(base@), 0),
        is_min(1, pset(base@), 0),
        is_max(0, pset(base@), w as int),
        is_max(1, pset(base@), h as int),
    ensures
        r.0@.len() == base@.len(),
        pset(r.0@) == norm_set(rot_set(k as int, pset(base@))),
        grid_ok(r.1@, pset(r.0@)),
        pts_view(base@).no_duplicates() ==> pts_view(r.0@).no_duplicates(),
        is_min(0, pset(r.0@), 0),
        is_min(1, pset(r.0@), 0),
        is_max(0, pset(r.0@), if k % 2 == 0 { w as int } else { h as int }),
        is_max(1, pset(r.0@), if k % 2 == 0 { h as int } else { w as int }),
{
    let ghost s = pset(base@);
    let ghost off = realign(k as int, w as int, h as int);
    let bw: i32 = if k % 2 == 0 { w } else { h };
    let bh: i32 = if k % 2 == 0 { h } else { w };
    let mut out: Vec<Point> = Vec::new();
    let mut i: usize = 0;
    while i < base.len()
        invariant
            i <= base@.len(),
            k < 4,
            0 <= w < 64,
            0 <= h < 64,
            bw == (if k % 2 == 0 { w } else { h }),
            bh == (if k % 2 == 0 { h } else { w }),
            off == realign(k as int, w as int, h as int),
            forall|j: int|
                0 <= j < base@.len() ==> 0 <= (#[trigger] base@[j])@.0 <= w as int && 0
                    <= base@[j]@.1 <= h as int,
            out@.len() == i,
            forall|j: int|
                0 <= j < i ==> (#[trigger] out@[j])@ == tr_pt(rot_pt(k as int, base@[j]@), off),
            forall|j: int|
                0 <= j < i ==> 0 <= (#[trigger] out@[j])@.0 <= bw as int && 0 <= out@[j]@.1
                    <= bh as int,
        decreases base@.len() - i,
    {
        let p = base[i];
        let q = if k == 0 {
            Point { x: p.x, y: p.y }
        } else if k == 1 {
            Point { x: h - p.y, y: p.x }
        } else if k == 2 {
            Point { x: w - p.x, y: h - p.y }
        } else {
            Point { x: p.y, y: w - p.x }
        };
        out.push(q);
        i += 1;
    }
    proof {
        lemma_pset_map(base@, out@, k as int, off);
        // the exec image is the realigned rotation; show it is the normalized
        // rotation, by pinning the rotated set's least corner
        lemma_extreme_rot(k as int, s, 0, 0, w as int, h as int);
        let rs = rot_set(k as int, s);
        assert(is_min(0, rs, -off.0) && is_min(1, rs, -off.1));
        crate::model::lemma_pin_bounds_min_only(rs, -off.0, -off.1);
        assert(norm_set(rs) == tr_set(rs, (off.0, off.1))) by {
            reveal(norm_set);
        }
        assert((off.0, off.1) == off);
        assert(pset(out@) == norm_set(rot_set(k as int, s)));
        // corners of the candidate
        lemma_extreme_tr(0, rs, off, -off.0);
        lemma_extreme_tr(1, rs, off, -off.1);
        if k % 2 == 0 {
            lemma_extreme_tr(0, rs, off, bw as int - off.0);
            lemma_extreme_tr(1, rs, off, bh as int - off.1);
        } else {
            lemma_extreme_tr(0, rs, off, bw as int - off.0);
            lemma_extreme_tr(1, rs, off, bh as int - off.1);
        }
    }
    let rows: usize = (bh as usize) + 1;
    let g = pack_grid(&out, rows);
    (out, g)
}

/// Build all four candidate frames and keep the one with the smallest grid,
/// preferring earlier rotations on ties.
fn best_candidate(base: &Vec<Point>, w: i32, h: i32) -> (r: (Vec<Point>, Vec<u64>, Point, Ghost<
    int,
>))
    requires
        0 <= w < 64,
        0 <= h < 64,
        base@.len() >= 1,
        forall|i: int|
            0 <= i < base@.len() ==> 0 <= (#[trigger] base@[i])@.0 <= w as int && 0
                <= base@[i]@.1 <= h as int,
        is_min(0, pset(base@), 0),
        is_min(1, pset(base@), 0),
        is_max(0, pset(base@), w as int),
        is_max(1, pset(base@), h as int),
    ensures
        0 <= r.3@ < 4,
        r.0@.len() == base@.len(),
        pset(r.0@) == cand_set(pset(base@), r.3@),
        grid_ok(r.1@, pset(r.0@)),
        pts_view(base@).no_duplicates() ==> pts_view(r.0@).no_duplicates(),
        is_min(0, pset(r.0@), 0),
        is_min(1, pset(r.0@), 0),
        is_max(0, pset(r.0@), r.2@.0),
        is_max(1, pset(r.0@), r.2@.1),
        r.2@ == (w as int, h as int) || r.2@ == (h as int, w as int),
        is_canon_grid(pset(base@), r.1@),
{
    let ghost bs = pset(base@);
    let (p0, g0) = make_candidate(base, 0, w, h);
    let (p1, g1) = make_candidate(base, 1, w, h);
    let (p2, g2) = make_candidate(base, 2, w, h);
    let (p3, g3) = make_candidate(base, 3, w, h);
    proof {
        crate::model::lemma_cand_def(bs, 0);
        crate::model::lemma_cand_def(bs, 1);
        crate::model::lemma_cand_def(bs, 2);
        crate::model::lemma_cand_def(bs, 3);
    }
    let mut bestp = p0;
    let mut bestg = g0;
    let mut bb = Point { x: w, y: h };
    let ghost mut bestk: int = 0;
    if lex_lt_exec(&g1, &bestg) {
        bestp = p1;
        bestg = g1;
        bb = Point { x: h, y: w };
        proof {
            bestk = 1;
        }
    }
    assert(bestg@ == pick2(g0@, g1@));
    if lex_lt_exec(&g2, &bestg) {
        bestp = p2;
        bestg = g2;
        bb = Point { x: w, y: h };
        proof {
            bestk = 2;
        }
    }
    assert(bestg@ == pick2(pick2(g0@, g1@), g2@));
    if lex_lt_exec(&g3, &bestg) {
        bestp = p3;
        bestg = g3;
        bb = Point { x: h, y: w };
        proof {
            bestk = 3;
        }
    }
    proof {
        assert(bestg@ == pick4(g0@, g1@, g2@, g3@));
        assert(is_canon_grid(bs, bestg@)) by {
            let gs = (g0@, g1@, g2@, g3@);
            assert(grid_ok(gs.0, cand_set(bs, 0)) && grid_ok(gs.1, cand_set(bs, 1)) && grid_ok(
                gs.2,
                cand_set(bs, 2),
            ) && grid_ok(gs.3, cand_set(bs, 3)) && bestg@ == pick4(gs.0, gs.1, gs.2, gs.3));
        }
    }
    (bestp, bestg, bb, Ghost(bestk))
}

/// A canonical grid of a translated set is a canonical grid of the set.
proof fn lemma_canon_tr_transport(s: Set<(int, int)>, d: (int, int), g: Seq<u64>)
    requires
        wf_pts(s),
        is_canon_grid(tr_set(s, d), g),
    ensures
        is_canon_grid(s, g),
{
    let t = tr_set(s, d);
    let hs = choose|hs: (Seq<u64>, Seq<u64>, Seq<u64>, Seq<u64>)|
        {
            &&& #[trigger] grid_ok(hs.0, cand_set(t, 0))
            &&& grid_ok(hs.1, cand_set(t, 1))
            &&& grid_ok(hs.2, cand_set(t, 2))
            &&& grid_ok(hs.3, cand_set(t, 3))
            &&& g == pick4(hs.0, hs.1, hs.2, hs.3)
        };
    lemma_cand_tr(s, d, 0);
    lemma_cand_tr(s, d, 1);
    lemma_cand_tr(s, d, 2);
    lemma_cand_tr(s, d, 3);
    assert(grid_ok(hs.0, cand_set(s, 0)) && grid_ok(hs.1, cand_set(s, 1)) && grid_ok(
        hs.2,
        cand_set(s, 2),
    ) && grid_ok(hs.3, cand_set(s, 3)) && g == pick4(hs.0, hs.1, hs.2, hs.3));
}

/// What the winning candidate frame of the normalized input guarantees
/// about the original input set.
proof fn lemma_assemble(
    s: Set<(int, int)>,
    d: (int, int),
    bs: Set<(int, int)>,
    cp: Set<(int, int)>,
    g: Seq<u64>,
    bk: int,
)
    requires
        wf_pts(s),
        bs == tr_set(s, d),
        0 <= bk < 4,
        cp == cand_set(bs, bk),
        is_canon_grid(bs, g),
    ensures
        is_canon_grid(s, g),
        cp == cand_set(s, bk),
        is_canon_grid(cp, g),
        connected_set(s) ==> connected_set(cp),
{
    lemma_canon_tr_transport(s, d, g);
    lemma_cand_tr(s, d, bk);
    lemma_canon_of_candidate(s, bk, g);
    if connected_set(s) {
        let rs = rot_set(bk, s);
        assert(cand_set(s, bk) == tr_set(rs, (-min_x(rs), -min_y(rs)))) by {
            reveal(cand_set);
            reveal(norm_set);
        }
        lemma_connected_transform(s, bk, (-min_x(rs), -min_y(rs)));
    }
}

/// Translate every point by `(-dx, -dy)`.
fn translate_to(pts: &Vec<Point>, dx: i32, dy: i32) -> (r: Vec<Point>)
    requires
        forall|i: int|
            0 <= i < pts@.len() ==> 0 <= ((#[trigger] pts@[i])@.0 - dx as int) < 64 && 0
                <= (pts@[i]@.1 - dy as int) < 64,
    ensures
        r@.len() == pts@.len(),
        forall|i: int|
            0 <= i < pts@.len() ==> (#[trigger] r@[i])@ == tr_pt(
                rot_pt(0, pts@[i]@),
                (-(dx as int), -(dy as int)),
            ),
{
    let mut out: Vec<Point> = Vec::new();
    let mut i: usize = 0;
    while i < pts.len()
        invariant
            i <= pts@.len(),
            out@.len() == i,
            forall|j: int|
                0 <= j < pts@.len() ==> 0 <= ((#[trigger] pts@[j])@.0 - dx as int) < 64 && 0
                    <= (pts@[j]@.1 - dy as int) < 64,
            forall|j: int|
                0 <= j < i ==> (#[trigger] out@[j])@ == tr_pt(
                    rot_pt(0, pts@[j]@),
                    (-(dx as int), -(dy as int)),
                ),
        decreases pts@.len() - i,
    {
        let p = pts[i];
        out.push(Point { x: p.x - dx, y: p.y - dy });
        i += 1;
    }
    out
}

/// Runtime equality of two packed grids.
pub(crate) fn grids_equal(a: &Vec<u64>, b: &Vec<u64>) -> (r: bool)
    ensures
        r == (a@ == b@),
{
    if a.len() != b.len() {
        assert(a@ != b@);
        return false;
    }
    let mut i: usize = 0;
    while i < a.len()
        invariant
            i <= a@.len(),
            a@.len() == b@.len(),
            forall|j: int| 0 <= j < i ==> a@[j] == b@[j],
        decreases a@.len() - i,
    {
        if a[i] != b[i] {
            return false;
        }
        i += 1;
    }
    proof {
        assert(a@ =~= b@);
    }
    true
}

// ---------------------------------------------------------------------------
// Shape
// ---------------------------------------------------------------------------

/// An immutable, canonicalized polyomino: its cells in canonical coordinates,
/// its canonical bit-packed grid, and its canonical bounding box.  Two shapes
/// are equal exactly when their canonical grids are bit-identical.
#[derive(Debug)]
pub struct Shape {
    points: Vec<Point>,
    grid: Vec<u64>,
    bb: Point,
}

impl Shape {
    /// The canonical coordinate pairs, in storage order.
    pub closed spec fn pts(self) -> Seq<(int, int)> {
        pts_view(self.points@)
    }

    /// The canonical cell set.
    pub closed spec fn cells(self) -> Set<(int, int)> {
        pset(self.points@)
    }

    /// The canonical packed grid.
    pub closed spec fn rows(self) -> Seq<u64> {
        self.grid@
    }

    /// The greatest cell of the canonical (zero-based) bounding box.
    pub closed spec fn corner(self) -> (int, int) {
        self.bb@
    }

    /// Number of cells.
    pub open spec fn size_spec(self) -> nat {
        self.pts().len()
    }

    #[verifier::type_invariant]
    closed spec fn wf(self) -> bool {
        &&& pts_view(self.points@).no_duplicates()
        &&& self.points@.len() >= 1
        &&& grid_ok(self.grid@, pset(self.points@))
        &&& is_canon_grid(pset(self.points@), self.grid@)
        &&& is_min(0, pset(self.points@), 0)
        &&& is_min(1, pset(self.points@), 0)
        &&& is_max(0, pset(self.points@), self.bb@.0)
        &&& is_max(1, pset(self.points@), self.bb@.1)
        &&& 0 <= self.bb@.0 < 64
        &&& 0 <= self.bb@.1 < 64
    }

    /// Everything the shape invariant guarantees of a constructed `Shape`.
    pub open spec fn inv(self) -> bool {
        &&& self.pts().no_duplicates()
        &&& self.pts().len() >= 1
        &&& self.cells() == self.pts().to_set()
        &&& self.cells().finite()
        &&& self.cells().len() == self.pts().len()
        &&& wf_pts(self.cells())
        &&& grid_ok(self.rows(), self.cells())
        &&& is_canon_grid(self.cells(), self.rows())
        &&& is_min(0, self.cells(), 0)
        &&& is_min(1, self.cells(), 0)
        &&& is_max(0, self.cells(), self.corner().0)
        &&& is_max(1, self.cells(), self.corner().1)
        &&& 0 <= self.corner().0 < 64
        &&& 0 <= self.corner().1 < 64
    }

    /// The canonical point list.  Also surfaces the shape invariant.
    pub fn points(&self) -> (r: &Vec<Point>)
        ensures
            pts_view(r@) == self.pts(),
            r@.len() == self.size_spec(),
            self.inv(),
    {
        proof {
            use_type_invariant(self);
            crate::geom::lemma_pset_def(self.points@);
            vstd::seq_lib::seq_to_set_is_finite(self.pts());
            self.pts().unique_seq_to_set();
            assert(self.cells().contains(self.pts()[0])) by {
                lemma_pset_contains(self.points@, self.points@[0]@);
            }
        }
        &self.points
    }

    /// The canonical packed grid: row `y` holds bit `x` exactly when cell
    /// `(x, y)` is occupied.  Also surfaces the shape invariant.
    pub fn grid(&self) -> (r: &Vec<u64>)
        ensures
            r@ == self.rows(),
            self.inv(),
    {
        proof {
            use_type_invariant(self);
            crate::geom::lemma_pset_def(self.points@);
            vstd::seq_lib::seq_to_set_is_finite(self.pts());
            self.pts().unique_seq_to_set();
            assert(self.cells().contains(self.pts()[0])) by {
                lemma_pset_contains(self.points@, self.points@[0]@);
            }
        }
        &self.grid
    }

    /// The greatest cell of the canonical bounding box (the least is the
    /// origin).
    pub fn bounds(&self) -> (r: Point)
        ensures
            r@ == self.corner(),
            self.inv(),
    {
        proof {
            use_type_invariant(self);
            crate::geom::lemma_pset_def(self.points@);
            vstd::seq_lib::seq_to_set_is_finite(self.pts());
            self.pts().unique_seq_to_set();
            assert(self.cells().contains(self.pts()[0])) by {
                lemma_pset_contains(self.points@, self.points@[0]@);
            }
        }
        self.bb
    }

    /// Number of cells.
    pub fn size(&self) -> (r: usize)
        ensures
            r == self.size_spec(),
            self.inv(),
    {
        proof {
            use_type_invariant(self);
            crate::geom::lemma_pset_def(self.points@);
            vstd::seq_lib::seq_to_set_is_finite(self.pts());
            self.pts().unique_seq_to_set();
            assert(self.cells().contains(self.pts()[0])) by {
                lemma_pset_contains(self.points@, self.points@[0]@);
            }
        }
        self.points.len()
    }

    /// Canonicalize a finite point set (given as a duplicate-free list) into
    /// a `Shape`.  The empty list breaks the shape invariant; a point set
    /// wider or taller than the packing width exceeds capacity; every other
    /// input canonicalizes.
    #[verifier::rlimit(100)]
    pub fn new(points: Vec<Point>) -> (r: Result<Shape, PolyError>)
        requires
            pts_view(points@).no_duplicates(),
        ensures
            points@.len() == 0 ==> r == Err::<Shape, PolyError>(
                PolyError::InternalInvariantViolation { size: 0 },
            ),
            points@.len() > 0 && !within_cap(pset(points@)) ==> r == Err::<Shape, PolyError>(
                PolyError::CapacityExceeded { size: points@.len() as usize },
            ),
            points@.len() > 0 && within_cap(pset(points@)) ==> r is Ok,
            r matches Ok(shape) ==> {
                &&& shape.inv()
                &&& shape.size_spec() == points@.len()
                &&& is_canon_grid(pset(points@), shape.rows())
                &&& exists|k: int| 0 <= k < 4 && shape.cells() == cand_set(pset(points@), k)
                &&& (connected_set(pset(points@)) ==> connected_set(shape.cells()))
                &&& ({
                    let ex = max_x(pset(points@)) - min_x(pset(points@));
                    let ey = max_y(pset(points@)) - min_y(pset(points@));
                    (shape.corner() == (ex, ey)) || (shape.corner() == (ey, ex))
                })
            },
    {
        let ghost s = pset(points@);
        if points.len() == 0 {
            return Err(PolyError::InternalInvariantViolation { size: 0 });
        }
        let (mnx, mny, mxx, mxy) = bounds_of(&points);
        proof {
            lemma_pin_bounds(s, mnx as int, mny as int, mxx as int, mxy as int);
            assert(within_cap(s) <==> ((mxx as int - mnx as int) < 64 && (mxy as int
                - mny as int) < 64)) by {
                reveal(within_cap);
            }
        }
        let ww: i64 = mxx as i64 - mnx as i64;
        let hh: i64 = mxy as i64 - mny as i64;
        if ww >= 64 || hh >= 64 {
            return Err(PolyError::CapacityExceeded { size: points.len() });
        }
        let w: i32 = ww as i32;
        let h: i32 = hh as i32;
        let ghost d = (-(mnx as int), -(mny as int));
        proof {
            assert forall|i: int| 0 <= i < points@.len() implies 0 <= ((
            #[trigger] points@[i])@.0 - mnx as int) < 64 && 0 <= (points@[i]@.1 - mny as int)
                < 64 by {
                lemma_pset_contains(points@, points@[i]@);
            }
        }
        let base = translate_to(&points, mnx, mny);
        let ghost bs = pset(base@);
        proof {
            lemma_pset_map(points@, base@, 0, d);
            crate::model::lemma_rot0(s);
            assert(bs == tr_set(s, d));
            lemma_extreme_tr(0, s, d, mnx as int);
            lemma_extreme_tr(1, s, d, mny as int);
            lemma_extreme_tr(0, s, d, mxx as int);
            lemma_extreme_tr(1, s, d, mxy as int);
            assert(is_min(0, bs, 0) && is_min(1, bs, 0));
            assert(is_max(0, bs, w as int) && is_max(1, bs, h as int));
            assert forall|i: int| 0 <= i < base@.len() implies 0 <= (#[trigger] base@[i])@.0
                <= w as int && 0 <= base@[i]@.1 <= h as int by {
                lemma_pset_contains(base@, base@[i]@);
            }
            assert(wf_pts(s)) by {
                crate::geom::lemma_pset_def(points@);
                vstd::seq_lib::seq_to_set_is_finite(pts_view(points@));
                lemma_pset_contains(points@, points@[0]@);
            }
            assert(wf_pts(bs)) by {
                lemma_tr_set_finite(s, d);
            }
        }
        let (bestp, bestg, bb, Ghost(bestk)) = best_candidate(&base, w, h);
        proof {
            lemma_assemble(s, d, bs, pset(bestp@), bestg@, bestk);
        }
        let shape = Shape { points: bestp, grid: bestg, bb };
        proof {
            crate::geom::lemma_pset_def(shape.points@);
            vstd::seq_lib::seq_to_set_is_finite(shape.pts());
            shape.pts().unique_seq_to_set();
            assert(shape.cells().contains(shape.pts()[0])) by {
                lemma_pset_contains(shape.points@, shape.points@[0]@);
            }
        }
        Ok(shape)
    }
}

/// Keeping a canonical frame canonical: the canonical grid of any candidate
/// frame of `s` is the canonical grid of `s` itself.
#[verifier::rlimit(100)]
pub proof fn lemma_canon_of_candidate(s: Set<(int, int)>, k1: int, g: Seq<u64>)
    requires
        wf_pts(s),
        0 <= k1 < 4,
        is_canon_grid(s, g),
    ensures
        is_canon_grid(cand_set(s, k1), g),
{
    let gs = choose|gs: (Seq<u64>, Seq<u64>, Seq<u64>, Seq<u64>)|
        {
            &&& #[trigger] grid_ok(gs.0, cand_set(s, 0))
            &&& grid_ok(gs.1, cand_set(s, 1))
            &&& grid_ok(gs.2, cand_set(s, 2))
            &&& grid_ok(gs.3, cand_set(s, 3))
            &&& g == pick4(gs.0, gs.1, gs.2, gs.3)
        };
    let c = cand_set(s, k1);
    lemma_cand_of_cand(s, k1, 0);
    lemma_cand_of_cand(s, k1, 1);
    lemma_cand_of_cand(s, k1, 2);
    lemma_cand_of_cand(s, k1, 3);
    let hs = if k1 == 0 {
        (gs.0, gs.1, gs.2, gs.3)
    } else if k1 == 1 {
        (gs.1, gs.2, gs.3, gs.0)
    } else if k1 == 2 {
        (gs.2, gs.3, gs.0, gs.1)
    } else {
        (gs.3, gs.0, gs.1, gs.2)
    };
    if k1 == 0 {
        assert(cand_set(c, 0) == cand_set(s, 0) && cand_set(c, 1) == cand_set(s, 1) && cand_set(
            c,
            2,
        ) == cand_set(s, 2) && cand_set(c, 3) == cand_set(s, 3));
    } else if k1 == 1 {
        assert(cand_set(c, 0) == cand_set(s, 1) && cand_set(c, 1) == cand_set(s, 2) && cand_set(
            c,
            2,
        ) == cand_set(s, 3) && cand_set(c, 3) == cand_set(s, 0));
    } else if k1 == 2 {
        assert(cand_set(c, 0) == cand_set(s, 2) && cand_set(c, 1) == cand_set(s, 3) && cand_set(
            c,
            2,
        ) == cand_set(s, 0) && cand_set(c, 3) == cand_set(s, 1));
    } else {
        assert(cand_set(c, 0) == cand_set(s, 3) && cand_set(c, 1) == cand_set(s, 0) && cand_set(
            c,
            2,
        ) == cand_set(s, 1) && cand_set(c, 3) == cand_set(s, 2));
    }
    assert(grid_ok(hs.0, cand_set(c, 0)) && grid_ok(hs.1, cand_set(c, 1)) && grid_ok(
        hs.2,
        cand_set(c, 2),
    ) && grid_ok(hs.3, cand_set(c, 3)));
    lemma_pick4_same_members(hs.0, hs.1, hs.2, hs.3, gs.0, gs.1, gs.2, gs.3);
    assert(g == pick4(hs.0, hs.1, hs.2, hs.3));
}

/// Canonicalization is idempotent: canonicalizing a shape's own canonical
/// frame yields the identical canonical grid.
pub proof fn lemma_canonical_idempotent(s: Set<(int, int)>, k: int, ga: Seq<u64>, gb: Seq<u64>)
    requires
        wf_pts(s),
        0 <= k < 4,
        is_canon_grid(s, ga),
        is_canon_grid(cand_set(s, k), gb),
    ensures
        ga == gb,
{
    lemma_canon_of_candidate(s, k, ga);
    lemma_canon_grid_unique(cand_set(s, k), ga, gb);
}

/// Canonicalization is rotation-invariant: rotating the input point set by
/// any number of quarter turns yields the identical canonical grid.
pub proof fn lemma_canonical_rotation_invariant(
    s: Set<(int, int)>,
    j: int,
    ga: Seq<u64>,
    gb: Seq<u64>,
)
    requires
        0 <= j < 4,
        is_canon_grid(s, ga),
        is_canon_grid(rot_set(j, s), gb),
    ensures
        ga == gb,
{
    let gs = choose|gs: (Seq<u64>, Seq<u64>, Seq<u64>, Seq<u64>)|
        {
            &&& #[trigger] grid_ok(gs.0, cand_set(s, 0))
            &&& grid_ok(gs.1, cand_set(s, 1))
            &&& grid_ok(gs.2, cand_set(s, 2))
            &&& grid_ok(gs.3, cand_set(s, 3))
            &&& ga == pick4(gs.0, gs.1, gs.2, gs.3)
        };
    let r = rot_set(j, s);
    let hs = choose|hs: (Seq<u64>, Seq<u64>, Seq<u64>, Seq<u64>)|
        {
            &&& #[trigger] grid_ok(hs.0, cand_set(r, 0))
            &&& grid_ok(hs.1, cand_set(r, 1))
            &&& grid_ok(hs.2, cand_set(r, 2))
            &&& grid_ok(hs.3, cand_set(r, 3))
            &&& gb == pick4(hs.0, hs.1, hs.2, hs.3)
        };
    crate::model::lemma_cand_rot(s, j, 0);
    crate::model::lemma_cand_rot(s, j, 1);
    crate::model::lemma_cand_rot(s, j, 2);
    crate::model::lemma_cand_rot(s, j, 3);
    if j == 0 {
        lemma_grid_unique(hs.0, gs.0, cand_set(s, 0));
        lemma_grid_unique(hs.1, gs.1, cand_set(s, 1));
        lemma_grid_unique(hs.2, gs.2, cand_set(s, 2));
        lemma_grid_unique(hs.3, gs.3, cand_set(s, 3));
    } else if j == 1 {
        lemma_grid_unique(hs.0, gs.1, cand_set(s, 1));
        lemma_grid_unique(hs.1, gs.2, cand_set(s, 2));
        lemma_grid_unique(hs.2, gs.3, cand_set(s, 3));
        lemma_grid_unique(hs.3, gs.0, cand_set(s, 0));
    } else if j == 2 {
        lemma_grid_unique(hs.0, gs.2, cand_set(s, 2));
        lemma_grid_unique(hs.1, gs.3, cand_set(s, 3));
        lemma_grid_unique(hs.2, gs.0, cand_set(s, 0));
        lemma_grid_unique(hs.3, gs.1, cand_set(s, 1));
    } else {
        lemma_grid_unique(hs.0, gs.3, cand_set(s, 3));
        lemma_grid_unique(hs.1, gs.0, cand_set(s, 0));
        lemma_grid_unique(hs.2, gs.1, cand_set(s, 1));
        lemma_grid_unique(hs.3, gs.2, cand_set(s, 2));
    }
    lemma_pick4_same_members(gs.0, gs.1, gs.2, gs.3, hs.0, hs.1, hs.2, hs.3);
}

/// Canonicalization is translation-invariant: translating the input point
/// set by any fixed vector yields the identical canonical grid.
pub proof fn lemma_canonical_translation_invariant(
    s: Set<(int, int)>,
    d: (int, int),
    ga: Seq<u64>,
    gb: Seq<u64>,
)
    requires
        wf_pts(s),
        is_canon_grid(s, ga),
        is_canon_grid(tr_set(s, d), gb),
    ensures
        ga == gb,
{
    let gs = choose|gs: (Seq<u64>, Seq<u64>, Seq<u64>, Seq<u64>)|
        {
            &&& #[trigger] grid_ok(gs.0, cand_set(s, 0))
            &&& grid_ok(gs.1, cand_set(s, 1))
            &&& grid_ok(gs.2, cand_set(s, 2))
            &&& grid_ok(gs.3, cand_set(s, 3))
            &&& ga == pick4(gs.0, gs.1, gs.2, gs.3)
        };
    let t = tr_set(s, d);
    let hs = choose|hs: (Seq<u64>, Seq<u64>, Seq<u64>, Seq<u64>)|
        {
            &&& #[trigger] grid_ok(hs.0, cand_set(t, 0))
            &&& grid_ok(hs.1, cand_set(t, 1))
            &&& grid_ok(hs.2, cand_set(t, 2))
            &&& grid_ok(hs.3, cand_set(t, 3))
            &&& gb == pick4(hs.0, hs.1, hs.2, hs.3)
        };
    lemma_cand_tr(s, d, 0);
    lemma_cand_tr(s, d, 1);
    lemma_cand_tr(s, d, 2);
    lemma_cand_tr(s, d, 3);
    lemma_grid_unique(hs.0, gs.0, cand_set(s, 0));
    lemma_grid_unique(hs.1, gs.1, cand_set(s, 1));
    lemma_grid_unique(hs.2, gs.2, cand_set(s, 2));
    lemma_grid_unique(hs.3, gs.3, cand_set(s, 3));
    lemma_pick4_same_members(gs.0, gs.1, gs.2, gs.3, hs.0, hs.1, hs.2, hs.3);
}

/// Dedup correctness: two point sets that are rotations of each other
/// canonicalize to the identical grid, so inserting both into one
/// generation's output set leaves exactly one member.
pub proof fn lemma_dedup_rotated(s: Set<(int, int)>, j: int, ga: Seq<u64>, gb: Seq<u64>)
    requires
        0 <= j < 4,
        is_canon_grid(s, ga),
        is_canon_grid(rot_set(j, s), gb),
    ensures
        Set::<Seq<u64>>::empty().insert(ga).insert(gb).len() == 1,
{
    lemma_canonical_rotation_invariant(s, j, ga, gb);
    assert(Set::<Seq<u64>>::empty().insert(ga).insert(gb) =~= Set::<Seq<u64>>::empty().insert(
        ga,
    ));
}

impl PartialEq for Shape {
    /// Shapes are equal exactly when their canonical grids are identical.
    fn eq(&self, other: &Shape) -> (r: bool) {
        grids_equal(&self.grid, &other.grid)
    }
}

impl Eq for Shape {

}

impl vstd::std_specs::cmp::PartialEqSpecImpl for Shape {
    open spec fn obeys_eq_spec() -> bool {
        true
    }

    open spec fn eq_spec(&self, other: &Shape) -> bool {
        self.rows() == other.rows()
    }
}

} // verus!

