use vstd::prelude::*;

use crate::geom::{pset, pts_view, Point};
use crate::model::{is_max, max_y};

verus! {

broadcast use vstd::set::group_set_axioms;

/// Bit `i` of a packed row.
pub open spec fn bit64(v: u64, i: int) -> bool {
    (v >> (i as u64)) & 1u64 == 1u64
}

/// `g` is the bit-packed grid of the cell set `s`: one row per `y`, one bit
/// per `x`, with exactly `max_y + 1` rows and all cells inside 64 columns.
#[verifier::opaque]
pub open spec fn grid_ok(g: Seq<u64>, s: Set<(int, int)>) -> bool {
    &&& g.len() == max_y(s) + 1
    &&& is_max(1, s, max_y(s))
    &&& forall|p: (int, int)| #[trigger] s.contains(p) ==> 0 <= p.0 < 64 && 0 <= p.1 < g.len()
    &&& forall|y: int, x: int|
        0 <= y < g.len() && 0 <= x < 64 ==> (#[trigger] bit64(g[y], x) <==> s.contains((x, y)))
}

proof fn lemma_shr_step(a: u64, b: u64, k: u64)
    by (bit_vector)
    requires
        k < 64,
        a >> ((k + 1) as u64) == b >> ((k + 1) as u64),
        (a >> k) & 1u64 == (b >> k) & 1u64,
    ensures
        a >> k == b >> k,
{
}

proof fn lemma_shr_rec(a: u64, b: u64, k: u64)
    requires
        k <= 64,
        forall|i: int| k <= i < 64 ==> (bit64(a, i) <==> bit64(b, i)),
    ensures
        a >> k == b >> k,
    decreases 64 - k,
{
    if k == 64 {
        assert(a >> 64u64 == b >> 64u64) by (bit_vector);
    } else {
        lemma_shr_rec(a, b, (k + 1) as u64);
        assert(bit64(a, k as int) <==> bit64(b, k as int));
        assert((a >> k) & 1u64 == (b >> k) & 1u64) by {
            if bit64(a, k as int) {
            } else {
                lemma_bit_not_set(a, k);
                lemma_bit_not_set(b, k);
            }
        }
        lemma_shr_step(a, b, k);
    }
}

proof fn lemma_bit_not_set(v: u64, k: u64)
    by (bit_vector)
    requires
        !((v >> k) & 1u64 == 1u64),
    ensures
        (v >> k) & 1u64 == 0u64,
{
}

/// Two rows whose 64 bits agree are equal.
pub proof fn lemma_row_ext(a: u64, b: u64)
    requires
        forall|i: int| 0 <= i < 64 ==> (bit64(a, i) <==> bit64(b, i)),
    ensures
        a == b,
{
    lemma_shr_rec(a, b, 0);
    assert(a >> 0u64 == a) by (bit_vector);
    assert(b >> 0u64 == b) by (bit_vector);
}

/// A cell set has at most one bit-packed grid.
pub proof fn lemma_grid_unique(g1: Seq<u64>, g2: Seq<u64>, s: Set<(int, int)>)
    requires
        grid_ok(g1, s),
        grid_ok(g2, s),
    ensures
        g1 == g2,
{
    reveal(grid_ok);
    assert(g1 =~= g2) by {
        assert forall|y: int| 0 <= y < g1.len() implies g1[y] == g2[y] by {
            assert forall|i: int| 0 <= i < 64 implies (bit64(g1[y], i) <==> bit64(g2[y], i)) by {
                assert(bit64(g1[y], i) <==> s.contains((i, y)));
                assert(bit64(g2[y], i) <==> s.contains((i, y)));
            }
            lemma_row_ext(g1[y], g2[y]);
        }
    }
}

proof fn lemma_zero_row(x: u64)
    by (bit_vector)
    requires
        x < 64,
    ensures
        !((0u64 >> x) & 1u64 == 1u64),
{
}

proof fn lemma_or_bit(v: u64, xc: u64, x: u64)
    by (bit_vector)
    requires
        x < 64,
        xc < 64,
    ensures
        ((v | (1u64 << xc)) >> x) & 1u64 == 1u64 <==> (x == xc || (v >> x) & 1u64 == 1u64),
{
}

/// Pack a list of cells, all inside `[0, 64) x [0, rows)`, into one bit row
/// per `y` coordinate.
pub fn pack_grid(pts: &Vec<Point>, rows: usize) -> (g: Vec<u64>)
    requires
        1 <= rows <= 64,
        forall|i: int|
            0 <= i < pts@.len() ==> 0 <= (#[trigger] pts@[i])@.0 < 64 && 0 <= pts@[i]@.1 < rows,
        is_max(1, pset(pts@), rows - 1),
    ensures
        grid_ok(g@, pset(pts@)),
{
    let ghost s = pset(pts@);
    proof {
        crate::model::lemma_pin_bounds_max_y(s, rows - 1);
        assert forall|p: (int, int)| #[trigger] s.contains(p) implies 0 <= p.0 < 64 && 0 <= p.1
            < rows by {
            crate::geom::lemma_pset_contains(pts@, p);
            let i = choose|i: int| 0 <= i < pts@.len() && (#[trigger] pts@[i])@ == p;
        }
    }
    let mut g: Vec<u64> = Vec::new();
    let mut y: usize = 0;
    while y < rows
        invariant
            s == pset(pts@),
            y <= rows,
            rows <= 64,
            g@.len() == y,
            forall|j: int|
                0 <= j < pts@.len() ==> 0 <= (#[trigger] pts@[j])@.0 < 64 && 0 <= pts@[j]@.1
                    < rows,
            forall|yy: int, x: int|
                0 <= yy < y && 0 <= x < 64 ==> (#[trigger] bit64(g@[yy], x) <==> s.contains(
                    (x, yy),
                )),
        decreases rows - y,
    {
        let mut row: u64 = 0;
        let mut i: usize = 0;
        proof {
            assert forall|x: int| 0 <= x < 64 implies !bit64(0u64, x) by {
                lemma_zero_row(x as u64);
            }
        }
        while i < pts.len()
            invariant
                s == pset(pts@),
                i <= pts@.len(),
                y < rows,
                rows <= 64,
                forall|j: int|
                    0 <= j < pts@.len() ==> 0 <= (#[trigger] pts@[j])@.0 < 64 && 0 <= pts@[j]@.1
                        < rows,
                forall|x: int|
                    0 <= x < 64 ==> (#[trigger] bit64(row, x) <==> exists|j: int|
                        0 <= j < i && (#[trigger] pts@[j])@ == (x, y as int)),
            decreases pts@.len() - i,
        {
            let p = pts[i];
            if p.y == y as i32 {
                let ghost oldrow = row;
                row = row | (1u64 << (p.x as u64));
                proof {
                    assert forall|x: int| 0 <= x < 64 implies (bit64(row, x) <==> exists|j: int|
                        0 <= j < i + 1 && (#[trigger] pts@[j])@ == (x, y as int)) by {
                        assert(bit64(row, x) == (x == p@.0 || bit64(oldrow, x))) by {
                            lemma_or_bit(oldrow, p.x as u64, x as u64);
                        }
                        if x == p@.0 {
                            assert(pts@[i as int]@ == (x, y as int));
                        } else {
                            if bit64(oldrow, x) {
                                let j = choose|j: int|
                                    0 <= j < i && (#[trigger] pts@[j])@ == (x, y as int);
                                assert(pts@[j]@ == (x, y as int));
                            } else {
                                if exists|j: int|
                                    0 <= j < i + 1 && (#[trigger] pts@[j])@ == (x, y as int) {
                                    let j = choose|j: int|
                                        0 <= j < i + 1 && (#[trigger] pts@[j])@ == (x, y as int);
                                    assert(j < i);
                                }
                            }
                        }
                    }
                }
            } else {
                proof {
                    assert forall|x: int| 0 <= x < 64 implies (bit64(row, x) <==> exists|j: int|
                        0 <= j < i + 1 && (#[trigger] pts@[j])@ == (x, y as int)) by {
                        if exists|j: int| 0 <= j < i + 1 && (#[trigger] pts@[j])@ == (x, y as int) {
                            let j = choose|j: int|
                                0 <= j < i + 1 && (#[trigger] pts@[j])@ == (x, y as int);
                            assert(j < i);
                        }
                    }
                }
            }
            i += 1;
        }
        proof {
            assert forall|x: int| 0 <= x < 64 implies (bit64(row, x) <==> s.contains(
                (x, y as int),
            )) by {
                crate::geom::lemma_pset_contains(pts@, (x, y as int));
            }
        }
        g.push(row);
        y += 1;
    }
    proof {
        assert(grid_ok(g@, s)) by {
            reveal(grid_ok);
        }
    }
    g
}

// ---------------------------------------------------------------------------
// lexicographic order on grids
// ---------------------------------------------------------------------------

/// Strict lexicographic order over row sequences: first differing row
/// decides; a proper prefix comes first.
pub open spec fn lex_lt(a: Seq<u64>, b: Seq<u64>) -> bool
    decreases a.len(),
{
    if b.len() == 0 {
        false
    } else if a.len() == 0 {
        true
    } else if a[0] != b[0] {
        a[0] < b[0]
    } else {
        lex_lt(a.drop_first(), b.drop_first())
    }
}

pub proof fn lemma_lex_irrefl(a: Seq<u64>)
    ensures
        !lex_lt(a, a),
    decreases a.len(),
{
    if a.len() > 0 {
        lemma_lex_irrefl(a.drop_first());
    }
}

pub proof fn lemma_lex_connex(a: Seq<u64>, b: Seq<u64>)
    ensures
        lex_lt(a, b) || lex_lt(b, a) || a == b,
    decreases a.len(),
{
    if a.len() == 0 || b.len() == 0 {
        if a.len() == 0 && b.len() == 0 {
            assert(a =~= b);
        }
    } else if a[0] != b[0] {
    } else {
        lemma_lex_connex(a.drop_first(), b.drop_first());
        if !lex_lt(a, b) && !lex_lt(b, a) {
            assert(a.drop_first() == b.drop_first());
            assert(a =~= b) by {
                assert(forall|i: int|
                    1 <= i < a.len() ==> a[i] == a.drop_first()[i - 1] && b[i] == b.drop_first()[i
                        - 1]);
            }
        }
    }
}

pub proof fn lemma_lex_asym(a: Seq<u64>, b: Seq<u64>)
    ensures
        !(lex_lt(a, b) && lex_lt(b, a)),
    decreases a.len(),
{
    if a.len() > 0 && b.len() > 0 && a[0] == b[0] {
        lemma_lex_asym(a.drop_first(), b.drop_first());
    }
}

pub proof fn lemma_lex_trans(a: Seq<u64>, b: Seq<u64>, c: Seq<u64>)
    requires
        lex_lt(a, b),
        lex_lt(b, c),
    ensures
        lex_lt(a, c),
    decreases a.len(),
{
    if a.len() == 0 {
    } else if b.len() == 0 {
    } else if c.len() == 0 {
    } else {
        if a[0] == b[0] && b[0] == c[0] {
            lemma_lex_trans(a.drop_first(), b.drop_first(), c.drop_first());
        }
    }
}

/// Runtime comparison matching `lex_lt`.
pub fn lex_lt_exec(a: &Vec<u64>, b: &Vec<u64>) -> (r: bool)
    ensures
        r == lex_lt(a@, b@),
{
    let mut i: usize = 0;
    proof {
        assert(a@.skip(0) =~= a@);
        assert(b@.skip(0) =~= b@);
    }
    loop
        invariant
            i <= a@.len(),
            i <= b@.len(),
            lex_lt(a@, b@) == lex_lt(a@.skip(i as int), b@.skip(i as int)),
        decreases a@.len() - i,
    {
        if i == a.len() || i == b.len() {
            proof {
                if i == a.len() {
                    assert(a@.skip(i as int).len() == 0);
                } else {
                    assert(b@.skip(i as int).len() == 0);
                    assert(a@.skip(i as int).len() > 0);
                }
            }
            return a.len() < b.len();
        }
        if a[i] != b[i] {
            proof {
                assert(a@.skip(i as int)[0] == a@[i as int]);
                assert(b@.skip(i as int)[0] == b@[i as int]);
            }
            return a[i] < b[i];
        }
        proof {
            assert(a@.skip(i as int)[0] == a@[i as int]);
            assert(b@.skip(i as int)[0] == b@[i as int]);
            assert(a@.skip(i as int).drop_first() =~= a@.skip(i + 1));
            assert(b@.skip(i as int).drop_first() =~= b@.skip(i + 1));
        }
        i += 1;
    }
}

/// The smaller of two grids, keeping the earlier one on a tie: exactly the
/// fold the canonicalizer performs over the four rotations.
pub open spec fn pick2(a: Seq<u64>, b: Seq<u64>) -> Seq<u64> {
    if lex_lt(b, a) {
        b
    } else {
        a
    }
}

/// The grid the canonicalizer keeps out of the four candidate grids.
pub open spec fn pick4(g0: Seq<u64>, g1: Seq<u64>, g2: Seq<u64>, g3: Seq<u64>) -> Seq<u64> {
    pick2(pick2(pick2(g0, g1), g2), g3)
}

/// The kept grid is no greater than either argument.
proof fn lemma_pick2_base(a: Seq<u64>, b: Seq<u64>)
    ensures
        !lex_lt(a, pick2(a, b)),
        !lex_lt(b, pick2(a, b)),
        pick2(a, b) == a || pick2(a, b) == b,
{
    lemma_lex_irrefl(a);
    lemma_lex_irrefl(b);
    if lex_lt(b, a) {
        lemma_lex_asym(a, b);
    }
}

/// A lower bound on the earlier candidates survives another `pick2` step.
proof fn lemma_pick2_lower(x: Seq<u64>, a: Seq<u64>, b: Seq<u64>)
    requires
        !lex_lt(x, a),
    ensures
        !lex_lt(x, pick2(a, b)),
{
    if lex_lt(b, a) && lex_lt(x, b) {
        lemma_lex_trans(x, b, a);
    }
}

pub proof fn lemma_pick4_member(g0: Seq<u64>, g1: Seq<u64>, g2: Seq<u64>, g3: Seq<u64>)
    ensures
        pick4(g0, g1, g2, g3) == g0 || pick4(g0, g1, g2, g3) == g1 || pick4(g0, g1, g2, g3) == g2
            || pick4(g0, g1, g2, g3) == g3,
        !lex_lt(g0, pick4(g0, g1, g2, g3)),
        !lex_lt(g1, pick4(g0, g1, g2, g3)),
        !lex_lt(g2, pick4(g0, g1, g2, g3)),
        !lex_lt(g3, pick4(g0, g1, g2, g3)),
{
    let m01 = pick2(g0, g1);
    let m012 = pick2(m01, g2);
    lemma_pick2_base(g0, g1);
    lemma_pick2_base(m01, g2);
    lemma_pick2_base(m012, g3);
    lemma_pick2_lower(g0, m01, g2);
    lemma_pick2_lower(g1, m01, g2);
    lemma_pick2_lower(g0, m012, g3);
    lemma_pick2_lower(g1, m012, g3);
    lemma_pick2_lower(g2, m012, g3);
}

/// Two four-element candidate lists holding the same grids (as values) make
/// the canonicalizer keep the same grid.
pub proof fn lemma_pick4_same_members(
    g0: Seq<u64>,
    g1: Seq<u64>,
    g2: Seq<u64>,
    g3: Seq<u64>,
    h0: Seq<u64>,
    h1: Seq<u64>,
    h2: Seq<u64>,
    h3: Seq<u64>,
)
    requires
        g0 == h0 || g0 == h1 || g0 == h2 || g0 == h3,
        g1 == h0 || g1 == h1 || g1 == h2 || g1 == h3,
        g2 == h0 || g2 == h1 || g2 == h2 || g2 == h3,
        g3 == h0 || g3 == h1 || g3 == h2 || g3 == h3,
        h0 == g0 || h0 == g1 || h0 == g2 || h0 == g3,
        h1 == g0 || h1 == g1 || h1 == g2 || h1 == g3,
        h2 == g0 || h2 == g1 || h2 == g2 || h2 == g3,
        h3 == g0 || h3 == g1 || h3 == g2 || h3 == g3,
    ensures
        pick4(g0, g1, g2, g3) == pick4(h0, h1, h2, h3),
{
    let m = pick4(g0, g1, g2, g3);
    let n = pick4(h0, h1, h2, h3);
    lemma_pick4_member(g0, g1, g2, g3);
    lemma_pick4_member(h0, h1, h2, h3);
    assert(!lex_lt(m, n));
    assert(!lex_lt(n, m));
    lemma_lex_connex(m, n);
}

} // verus!
