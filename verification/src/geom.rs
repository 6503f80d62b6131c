use vstd::prelude::*;

verus! {

/// A cell of the square grid, addressed by signed integer coordinates.
#[derive(Clone, Copy, Debug, PartialEq, Eq, Structural)]
pub struct Point {
    pub x: i32,
    pub y: i32,
}

impl View for Point {
    type V = (int, int);

    open spec fn view(&self) -> (int, int) {
        (self.x as int, self.y as int)
    }
}

impl Point {
    pub fn new(x: i32, y: i32) -> (r: Point)
        ensures
            r@ == (x as int, y as int),
    {
        Point { x, y }
    }
}

/// The sequence of coordinate pairs denoted by a sequence of points.
pub open spec fn pts_view(s: Seq<Point>) -> Seq<(int, int)> {
    s.map_values(|p: Point| p@)
}

/// The set of coordinate pairs denoted by a sequence of points.
#[verifier::opaque]
pub open spec fn pset(s: Seq<Point>) -> Set<(int, int)> {
    pts_view(s).to_set()
}

/// The definition of the denoted cell set, for proofs that must unfold it.
pub proof fn lemma_pset_def(s: Seq<Point>)
    ensures
        pset(s) == pts_view(s).to_set(),
{
    reveal(pset);
}

/// Membership in the cell set of a point list, in terms of list indices.
pub proof fn lemma_pset_contains(v: Seq<Point>, q: (int, int))
    ensures
        pset(v).contains(q) <==> exists|i: int| 0 <= i < v.len() && (#[trigger] v[i])@ == q,
{
    broadcast use vstd::set::group_set_axioms;

    reveal(pset);
    if pset(v).contains(q) {
        assert(pts_view(v).contains(q));
        let i = choose|i: int| 0 <= i < pts_view(v).len() && pts_view(v)[i] == q;
        assert(v[i]@ == q);
    }
    if exists|i: int| 0 <= i < v.len() && (#[trigger] v[i])@ == q {
        let i = choose|i: int| 0 <= i < v.len() && (#[trigger] v[i])@ == q;
        assert(pts_view(v)[i] == q);
        assert(pts_view(v).contains(q));
    }
}

/// Rotation of a single cell by `k` quarter turns counter-clockwise about the origin.
pub open spec fn rot_pt(k: int, p: (int, int)) -> (int, int) {
    if k == 1 {
        (-p.1, p.0)
    } else if k == 2 {
        (-p.0, -p.1)
    } else if k == 3 {
        (p.1, -p.0)
    } else {
        p
    }
}

/// The quarter-turn count that undoes `k` quarter turns.
pub open spec fn rot_inv(k: int) -> int {
    if k == 0 {
        0
    } else {
        4 - k
    }
}

/// Translation of a single cell by the vector `d`.
pub open spec fn tr_pt(p: (int, int), d: (int, int)) -> (int, int) {
    (p.0 + d.0, p.1 + d.1)
}

/// Two cells are adjacent when they differ by exactly one unit step
/// along one axis.
pub open spec fn adjacent(p: (int, int), q: (int, int)) -> bool {
    ||| (q.0 == p.0 + 1 && q.1 == p.1)
    ||| (q.0 == p.0 - 1 && q.1 == p.1)
    ||| (q.0 == p.0 && q.1 == p.1 + 1)
    ||| (q.0 == p.0 && q.1 == p.1 - 1)
}

/// The four unit axis moves, in the order the expander tries them.
pub open spec fn move_of(m: int) -> (int, int) {
    if m == 0 {
        (1, 0)
    } else if m == 1 {
        (-1, 0)
    } else if m == 2 {
        (0, 1)
    } else {
        (0, -1)
    }
}

pub proof fn lemma_rot_compose(j: int, k: int, p: (int, int))
    requires
        0 <= j < 4,
        0 <= k < 4,
    ensures
        rot_pt(j, rot_pt(k, p)) == rot_pt((j + k) % 4, p),
{
}

pub proof fn lemma_rot_inv(k: int, p: (int, int))
    requires
        0 <= k < 4,
    ensures
        0 <= rot_inv(k) < 4,
        rot_pt(rot_inv(k), rot_pt(k, p)) == p,
        rot_pt(k, rot_pt(rot_inv(k), p)) == p,
{
}

pub proof fn lemma_rot_linear(k: int, p: (int, int), d: (int, int))
    requires
        0 <= k < 4,
    ensures
        rot_pt(k, tr_pt(p, d)) == tr_pt(rot_pt(k, p), rot_pt(k, d)),
{
}

pub proof fn lemma_rot_adjacent(k: int, p: (int, int), q: (int, int))
    requires
        0 <= k < 4,
    ensures
        adjacent(rot_pt(k, p), rot_pt(k, q)) == adjacent(p, q),
{
}

} // verus!
