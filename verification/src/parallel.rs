use vstd::prelude::*;

use rayon::iter::ParallelIterator;
use rayon::slice::ParallelSlice;

use crate::errors::PolyError;
use crate::expand::{children_of, distinct_grids, expand_shard, gen_shape_ok, grids_of,
    has_bad_child, in_child_grids, lemma_sat_add2, sat64, sat_add, shard_moves, shard_post,
    shard_tried, ShardResult};
use crate::shape::Shape;

verus! {

broadcast use vstd::set::group_set_axioms;

/// The slices `par_chunks` hands out: groups of `c` shapes in order, the
/// last group possibly shorter.
pub open spec fn chunks_of(s: Seq<Shape>, c: int) -> Seq<Seq<Shape>>
    decreases s.len(),
{
    if c < 1 || s.len() == 0 {
        Seq::empty()
    } else if s.len() <= c {
        seq![s]
    } else {
        seq![s.take(c)].add(chunks_of(s.skip(c), c))
    }
}

/// Union of the child grids over a list of shards.
pub open spec fn chunks_union(cs: Seq<Seq<Shape>>) -> Set<Seq<u64>>
    decreases cs.len(),
{
    if cs.len() == 0 {
        Set::empty()
    } else {
        chunks_union(cs.drop_last()).union(children_of(cs.last()))
    }
}

/// Total candidate moves over a list of shards.
pub open spec fn chunks_moves(cs: Seq<Seq<Shape>>) -> nat
    decreases cs.len(),
{
    if cs.len() == 0 {
        0
    } else {
        chunks_moves(cs.drop_last()) + shard_moves(cs.last())
    }
}

/// Total canonicalizations over a list of shards.
pub open spec fn chunks_tried(cs: Seq<Seq<Shape>>) -> nat
    decreases cs.len(),
{
    if cs.len() == 0 {
        0
    } else {
        chunks_tried(cs.drop_last()) + shard_tried(cs.last())
    }
}

/// Some shard holds a shape with an over-capacity child.
pub open spec fn chunks_bad(cs: Seq<Seq<Shape>>) -> bool
    decreases cs.len(),
{
    if cs.len() == 0 {
        false
    } else {
        chunks_bad(cs.drop_last()) || has_bad_child(cs.last())
    }
}

// ---------------------------------------------------------------------------
// splitting a generation into two parts
// ---------------------------------------------------------------------------

proof fn lemma_children_concat(a: Seq<Shape>, b: Seq<Shape>)
    ensures
        children_of(a.add(b)) == children_of(a).union(children_of(b)),
        has_bad_child(a.add(b)) == (has_bad_child(a) || has_bad_child(b)),
{
    let ab = a.add(b);
    assert(children_of(ab) =~= children_of(a).union(children_of(b))) by {
        assert forall|g: Seq<u64>|
            children_of(ab).contains(g) == children_of(a).union(children_of(b)).contains(g) by {
            if children_of(ab).contains(g) {
                let i = choose|i: int|
                    0 <= i < ab.len() && in_child_grids((#[trigger] ab[i]).cells(), g);
                if i < a.len() {
                    assert(a[i] == ab[i]);
                    assert(children_of(a).contains(g));
                } else {
                    assert(b[i - a.len()] == ab[i]);
                    assert(children_of(b).contains(g));
                }
            }
            if children_of(a).contains(g) {
                let i = choose|i: int|
                    0 <= i < a.len() && in_child_grids((#[trigger] a[i]).cells(), g);
                assert(ab[i] == a[i]);
                assert(children_of(ab).contains(g));
            }
            if children_of(b).contains(g) {
                let i = choose|i: int|
                    0 <= i < b.len() && in_child_grids((#[trigger] b[i]).cells(), g);
                assert(ab[a.len() + i] == b[i]);
                assert(children_of(ab).contains(g));
            }
        }
    }
    assert(has_bad_child(ab) == (has_bad_child(a) || has_bad_child(b))) by {
        if has_bad_child(ab) {
            let (i, q) = choose|i: int, q: (int, int)|
                0 <= i < ab.len() && #[trigger] crate::expand::is_valid_move(ab[i].cells(), q)
                    && !crate::model::within_cap(ab[i].cells().insert(q));
            if i < a.len() {
                assert(a[i] == ab[i]);
                assert(has_bad_child(a));
            } else {
                assert(b[i - a.len()] == ab[i]);
                assert(has_bad_child(b));
            }
        }
        if has_bad_child(a) {
            let (i, q) = choose|i: int, q: (int, int)|
                0 <= i < a.len() && #[trigger] crate::expand::is_valid_move(a[i].cells(), q)
                    && !crate::model::within_cap(a[i].cells().insert(q));
            assert(ab[i] == a[i]);
            assert(has_bad_child(ab));
        }
        if has_bad_child(b) {
            let (i, q) = choose|i: int, q: (int, int)|
                0 <= i < b.len() && #[trigger] crate::expand::is_valid_move(b[i].cells(), q)
                    && !crate::model::within_cap(b[i].cells().insert(q));
            assert(ab[a.len() + i] == b[i]);
            assert(has_bad_child(ab));
        }
    }
}

proof fn lemma_counts_concat(a: Seq<Shape>, b: Seq<Shape>)
    ensures
        shard_moves(a.add(b)) == shard_moves(a) + shard_moves(b),
        shard_tried(a.add(b)) == shard_tried(a) + shard_tried(b),
    decreases b.len(),
{
    if b.len() == 0 {
        assert(a.add(b) =~= a);
    } else {
        assert(a.add(b).drop_last() =~= a.add(b.drop_last()));
        assert(a.add(b).last() == b.last());
        lemma_counts_concat(a, b.drop_last());
    }
}

/// Chunking preserves the four aggregates.
proof fn lemma_chunks(s: Seq<Shape>, c: int)
    requires
        c >= 1,
    ensures
        chunks_union(chunks_of(s, c)) == children_of(s),
        chunks_moves(chunks_of(s, c)) == shard_moves(s),
        chunks_tried(chunks_of(s, c)) == shard_tried(s),
        chunks_bad(chunks_of(s, c)) == has_bad_child(s),
    decreases s.len(),
{
    if s.len() == 0 {
        assert(children_of(s) =~= Set::<Seq<u64>>::empty());
        assert(!has_bad_child(s));
    } else if s.len() <= c {
        let cs = chunks_of(s, c);
        assert(cs == seq![s]);
        let dl = cs.drop_last();
        assert(dl =~= Seq::<Seq<Shape>>::empty());
        assert(cs.last() == s);
        assert(chunks_union(dl) == Set::<Seq<u64>>::empty());
        assert(chunks_moves(dl) == 0 && chunks_tried(dl) == 0 && !chunks_bad(dl));
        assert(chunks_union(cs) =~= children_of(s));
        assert(chunks_moves(cs) == shard_moves(s));
        assert(chunks_tried(cs) == shard_tried(s));
        assert(chunks_bad(cs) == has_bad_child(s));
    } else {
        let a = s.take(c);
        let b = s.skip(c);
        lemma_chunks(b, c);
        assert(s =~= a.add(b));
        lemma_children_concat(a, b);
        lemma_counts_concat(a, b);
        let cs = chunks_of(s, c);
        let rest = chunks_of(b, c);
        assert(cs == seq![a].add(rest));
        assert(rest.len() > 0) by {
            assert(b.len() > 0);
        }
        lemma_chunks_prepend(a, rest);
    }
}

/// Prepending one shard to a shard list adds its aggregates.
proof fn lemma_chunks_prepend(a: Seq<Shape>, rest: Seq<Seq<Shape>>)
    ensures
        chunks_union(seq![a].add(rest)) == children_of(a).union(chunks_union(rest)),
        chunks_moves(seq![a].add(rest)) == shard_moves(a) + chunks_moves(rest),
        chunks_tried(seq![a].add(rest)) == shard_tried(a) + chunks_tried(rest),
        chunks_bad(seq![a].add(rest)) == (has_bad_child(a) || chunks_bad(rest)),
    decreases rest.len(),
{
    let whole = seq![a].add(rest);
    if rest.len() == 0 {
        let dl = whole.drop_last();
        assert(dl =~= Seq::<Seq<Shape>>::empty());
        assert(whole.last() == a);
        assert(chunks_union(dl) == Set::<Seq<u64>>::empty());
        assert(chunks_moves(dl) == 0 && chunks_tried(dl) == 0 && !chunks_bad(dl));
        assert(chunks_union(rest) == Set::<Seq<u64>>::empty());
        assert(chunks_moves(rest) == 0 && chunks_tried(rest) == 0 && !chunks_bad(rest));
        assert(chunks_union(whole) =~= children_of(a).union(chunks_union(rest)));
        assert(chunks_moves(whole) == shard_moves(a) + chunks_moves(rest));
        assert(chunks_tried(whole) == shard_tried(a) + chunks_tried(rest));
        assert(chunks_bad(whole) == (has_bad_child(a) || chunks_bad(rest)));
    } else {
        assert(whole.drop_last() =~= seq![a].add(rest.drop_last()));
        assert(whole.last() == rest.last());
        lemma_chunks_prepend(a, rest.drop_last());
        assert(chunks_union(whole) =~= children_of(a).union(chunks_union(rest))) by {
            assert(chunks_union(whole) == chunks_union(whole.drop_last()).union(
                children_of(rest.last()),
            ));
            assert(chunks_union(rest) == chunks_union(rest.drop_last()).union(
                children_of(rest.last()),
            ));
        }
        assert(chunks_moves(whole) == chunks_moves(whole.drop_last()) + shard_moves(rest.last()));
        assert(chunks_moves(rest) == chunks_moves(rest.drop_last()) + shard_moves(rest.last()));
        assert(chunks_tried(whole) == chunks_tried(whole.drop_last()) + shard_tried(rest.last()));
        assert(chunks_tried(rest) == chunks_tried(rest.drop_last()) + shard_tried(rest.last()));
        assert(chunks_bad(whole) == (chunks_bad(whole.drop_last()) || has_bad_child(rest.last())));
        assert(chunks_bad(rest) == (chunks_bad(rest.drop_last()) || has_bad_child(rest.last())));
    }
}

// ---------------------------------------------------------------------------
// the parallel fan-out
// ---------------------------------------------------------------------------

/// Relies on rayon's `par_chunks`, `map` and `collect`: the slice is cut
/// into consecutive chunks of `c` shapes (the last one shorter), the closure
/// runs on every chunk, and the results come back in chunk order.  The
/// closure only calls the verified `expand_shard`, so each result satisfies
/// that function's contract for its chunk.
#[verifier::external_body]
fn par_expand_chunks(prev: &Vec<Shape>, c: usize, n: usize) -> (r: Vec<
    Result<ShardResult, PolyError>,
>)
    requires
        c >= 1,
        1 <= n < usize::MAX,
        forall|j: int| 0 <= j < prev@.len() ==> gen_shape_ok(#[trigger] prev@[j], n as nat),
    ensures
        r@.len() == chunks_of(prev@, c as int).len(),
        forall|i: int|
            0 <= i < r@.len() ==> shard_post(
                chunks_of(prev@, c as int)[i],
                n as nat,
                #[trigger] r@[i],
            ),
{
    prev.par_chunks(c).map(|chunk: &[Shape]| expand_shard(chunk, n)).collect()
}

/// Fold the shard results into one deduplicated generation, summing the
/// counters; the single-threaded join after the parallel fan-out.
#[verifier::rlimit(100)]
fn merge_results(
    rs: Vec<Result<ShardResult, PolyError>>,
    n: usize,
    Ghost(cs): Ghost<Seq<Seq<Shape>>>,
) -> (r: Result<ShardResult, PolyError>)
    requires
        1 <= n < usize::MAX,
        rs@.len() == cs.len(),
        forall|i: int| 0 <= i < cs.len() ==> shard_post(cs[i], n as nat, #[trigger] rs@[i]),
    ensures
        match r {
            Ok(res) => {
                &&& grids_of(res.shapes@) == chunks_union(cs)
                &&& distinct_grids(res.shapes@)
                &&& forall|j: int|
                    0 <= j < res.shapes@.len() ==> gen_shape_ok(
                        #[trigger] res.shapes@[j],
                        n as nat + 1,
                    )
                &&& res.points_tried == sat64(chunks_moves(cs))
                &&& res.polys_tried == sat64(chunks_tried(cs))
                &&& !chunks_bad(cs)
            },
            Err(e) => {
                &&& e == (PolyError::CapacityExceeded { size: (n + 1) as usize })
                &&& chunks_bad(cs)
            },
        },
{
    let mut rs = rs;
    let ghost rs0 = rs@;
    let mut acc: Vec<Shape> = Vec::new();
    let mut mv: u64 = 0;
    let mut td: u64 = 0;
    let mut idx: usize = 0;
    let total = rs.len();
    proof {
        assert(rs0.len() == total);
        assert(cs.take(0) =~= Seq::<Seq<Shape>>::empty());
        assert(grids_of(acc@) =~= chunks_union(cs.take(0)));
    }
    while rs.len() > 0
        invariant
            1 <= n < usize::MAX,
            rs@ == rs0.skip(idx as int),
            idx <= rs0.len(),
            rs0.len() <= usize::MAX,
            rs0.len() == cs.len(),
            forall|i: int| 0 <= i < cs.len() ==> shard_post(cs[i], n as nat, #[trigger] rs0[i]),
            mv == sat64(chunks_moves(cs.take(idx as int))),
            td == sat64(chunks_tried(cs.take(idx as int))),
            grids_of(acc@) == chunks_union(cs.take(idx as int)),
            distinct_grids(acc@),
            forall|j: int|
                0 <= j < acc@.len() ==> gen_shape_ok(#[trigger] acc@[j], n as nat + 1),
            !chunks_bad(cs.take(idx as int)),
        decreases rs@.len(),
    {
        proof {
            assert(idx < rs0.len()) by {
                assert(rs@.len() == rs0.len() - idx);
            }
        }
        let head = rs.remove(0);
        proof {
            assert(rs0.skip(idx as int)[0] == rs0[idx as int]);
            assert(rs0.skip(idx as int).remove(0) =~= rs0.skip(idx as int + 1));
            assert(cs.take(idx as int + 1).drop_last() =~= cs.take(idx as int));
            assert(cs.take(idx as int + 1).last() == cs[idx as int]);
        }
        match head {
            Err(e) => {
                proof {
                    assert(chunks_bad(cs)) by {
                        lemma_chunks_bad_mono(cs, idx as int);
                    }
                }
                return Err(e);
            },
            Ok(res) => {
                proof {
                    lemma_sat_add2(chunks_moves(cs.take(idx as int)), shard_moves(cs[idx as int]));
                    lemma_sat_add2(chunks_tried(cs.take(idx as int)), shard_tried(cs[idx as int]));
                }
                mv = sat_add(mv, res.points_tried);
                td = sat_add(td, res.polys_tried);
                let mut shv = res.shapes;
                let ghost target = chunks_union(cs.take(idx as int)).union(
                    children_of(cs[idx as int]),
                );
                proof {
                    assert(grids_of(acc@).union(grids_of(shv@)) =~= target);
                }
                loop
                    invariant
                        grids_of(acc@).union(grids_of(shv@)) == target,
                        distinct_grids(acc@),
                        forall|j: int|
                            0 <= j < acc@.len() ==> gen_shape_ok(#[trigger] acc@[j], n as nat + 1),
                        forall|j: int|
                            0 <= j < shv@.len() ==> gen_shape_ok(#[trigger] shv@[j], n as nat + 1),
                    ensures
                        grids_of(acc@) == target,
                        distinct_grids(acc@),
                        forall|j: int|
                            0 <= j < acc@.len() ==> gen_shape_ok(#[trigger] acc@[j], n as nat + 1),
                    decreases shv@.len(),
                {
                    let ghost shvpre = shv@;
                    match shv.pop() {
                        None => {
                            proof {
                                assert(shvpre.len() == 0);
                                assert(grids_of(shvpre) =~= Set::<Seq<u64>>::empty());
                                assert(grids_of(acc@) =~= target);
                            }
                            break ;
                        },
                        Some(sh) => {
                            proof {
                                assert(sh == shvpre.last());
                                assert(shv@ == shvpre.drop_last());
                                assert(grids_of(shvpre) =~= grids_of(shv@).insert(sh.rows())) by {
                                    assert forall|g: Seq<u64>|
                                        grids_of(shvpre).contains(g) == grids_of(shv@).insert(
                                            sh.rows(),
                                        ).contains(g) by {
                                        if grids_of(shvpre).contains(g) {
                                            let j = choose|j: int|
                                                0 <= j < shvpre.len() && (
                                                #[trigger] shvpre[j]).rows() == g;
                                            if j < shvpre.len() - 1 {
                                                assert(shv@[j] == shvpre[j]);
                                                assert(grids_of(shv@).contains(g));
                                            }
                                        }
                                        if grids_of(shv@).contains(g) {
                                            let j = choose|j: int|
                                                0 <= j < shv@.len() && (#[trigger] shv@[j]).rows()
                                                    == g;
                                            assert(shvpre[j] == shv@[j]);
                                            assert(grids_of(shvpre).contains(g));
                                        }
                                        if g == sh.rows() {
                                            assert(shvpre[shvpre.len() - 1].rows() == g);
                                            assert(grids_of(shvpre).contains(g));
                                        }
                                    }
                                }
                            }
                            let _ = crate::expand::insert_shape(&mut acc, sh);
                            proof {
                                assert(grids_of(acc@).union(grids_of(shv@)) =~= target);
                            }
                        },
                    }
                }
                proof {
                    assert(chunks_moves(cs.take(idx as int + 1)) == chunks_moves(
                        cs.take(idx as int),
                    ) + shard_moves(cs[idx as int]));
                    assert(chunks_tried(cs.take(idx as int + 1)) == chunks_tried(
                        cs.take(idx as int),
                    ) + shard_tried(cs[idx as int]));
                    assert(chunks_union(cs.take(idx as int + 1)) == chunks_union(
                        cs.take(idx as int),
                    ).union(children_of(cs[idx as int])));
                    assert(chunks_bad(cs.take(idx as int + 1)) == (chunks_bad(cs.take(idx as int))
                        || has_bad_child(cs[idx as int])));
                }
                idx += 1;
            },
        }
    }
    proof {
        assert(cs.take(cs.len() as int) =~= cs);
        assert(rs0.skip(idx as int).len() == 0);
        assert(idx == rs0.len());
    }
    Ok(ShardResult { shapes: acc, points_tried: mv, polys_tried: td })
}

/// A bad shard makes the whole list bad.
proof fn lemma_chunks_bad_mono(cs: Seq<Seq<Shape>>, i: int)
    requires
        0 <= i < cs.len(),
        has_bad_child(cs[i]),
    ensures
        chunks_bad(cs),
    decreases cs.len(),
{
    if i == cs.len() - 1 {
    } else {
        assert(cs.drop_last()[i] == cs[i]);
        lemma_chunks_bad_mono(cs.drop_last(), i);
    }
}

// ---------------------------------------------------------------------------
// one whole generation step
// ---------------------------------------------------------------------------

/// The full contract of one generation step, independent of the worker
/// count.
pub open spec fn gen_step_post(
    prev: Seq<Shape>,
    n: nat,
    r: Result<ShardResult, PolyError>,
) -> bool {
    match r {
        Ok(res) => {
            &&& grids_of(res.shapes@) == children_of(prev)
            &&& distinct_grids(res.shapes@)
            &&& forall|j: int|
                0 <= j < res.shapes@.len() ==> gen_shape_ok(#[trigger] res.shapes@[j], n + 1)
            &&& res.points_tried == sat64(shard_moves(prev))
            &&& res.polys_tried == sat64(shard_tried(prev))
            &&& !has_bad_child(prev)
        },
        Err(e) => {
            &&& e == (PolyError::CapacityExceeded { size: (n + 1) as usize })
            &&& has_bad_child(prev)
        },
    }
}

/// Expand one generation: shard the previous generation over the workers,
/// expand every shard, and merge the partial results.
pub fn expand_generation(prev: &Vec<Shape>, n: usize, workers: usize) -> (r: Result<
    ShardResult,
    PolyError,
>)
    requires
        1 <= n < usize::MAX,
        workers >= 1,
        forall|j: int| 0 <= j < prev@.len() ==> gen_shape_ok(#[trigger] prev@[j], n as nat),
    ensures
        gen_step_post(prev@, n as nat, r),
{
    let len = prev.len();
    if len == 0 {
        proof {
            assert(grids_of(Seq::<Shape>::empty()) =~= children_of(prev@));
            assert(shard_moves(prev@) == 0 && shard_tried(prev@) == 0);
            assert(!has_bad_child(prev@));
        }
        return Ok(ShardResult { shapes: Vec::new(), points_tried: 0, polys_tried: 0 });
    }
    let c = (len - 1) / workers + 1;
    proof {
        assert((len - 1) / workers as int <= len - 1);
        assert(c >= 1);
    }
    let rs = par_expand_chunks(prev, c, n);
    let r = merge_results(rs, n, Ghost(chunks_of(prev@, c as int)));
    proof {
        lemma_chunks(prev@, c as int);
    }
    r
}

/// Expanding a fixed generation with one worker or with many yields
/// set-equal shape output and identical counters: the step's contract pins
/// both independently of the worker count.
pub proof fn lemma_parallel_sequential_equivalence(
    prev: Seq<Shape>,
    n: nat,
    r1: Result<ShardResult, PolyError>,
    r2: Result<ShardResult, PolyError>,
)
    requires
        gen_step_post(prev, n, r1),
        gen_step_post(prev, n, r2),
    ensures
        r1 is Ok <==> r2 is Ok,
        r1 is Err ==> r1 == r2,
        r1 is Ok && r2 is Ok ==> {
            &&& grids_of((r1->Ok_0).shapes@) == grids_of((r2->Ok_0).shapes@)
            &&& (r1->Ok_0).points_tried == (r2->Ok_0).points_tried
            &&& (r1->Ok_0).polys_tried == (r2->Ok_0).polys_tried
        },
{
}

} // verus!
