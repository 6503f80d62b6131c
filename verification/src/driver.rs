use vstd::prelude::*;

use crate::errors::PolyError;
use crate::expand::{children_of, distinct_grids, gen_shape_ok, grids_of, is_valid_move,
    lemma_child_cap, sat64, shard_moves, shard_tried};
use crate::geom::{lemma_pset_contains, pset, pts_view, Point};
use crate::model::{is_max, is_min, within_cap};
use crate::parallel::expand_generation;
use crate::shape::{is_canon_grid, Shape};

verus! {

broadcast use vstd::set::group_set_axioms;

/// Per-generation statistics, exposed for diagnostics: the two examination
/// counters saturate at the counter width.
#[derive(Clone, Copy, Debug, PartialEq, Eq, Structural)]
pub struct GenStats {
    /// Cell count of the generation.
    pub size: usize,
    /// Candidate moves examined while building this generation.
    pub points_tried: u64,
    /// Candidate point sets canonicalized while building this generation.
    pub polys_tried: u64,
    /// Distinct canonical shapes found.
    pub found: usize,
}

/// A pluggable sink for per-generation statistics; the caller may measure
/// elapsed time between callbacks.
pub trait MetricsSink {
    /// Called once after each generation completes, in order of size.
    fn on_generation(&mut self, stats: &GenStats);
}

/// A sink that ignores every report.
pub struct NullSink {
}

impl MetricsSink for NullSink {
    fn on_generation(&mut self, _stats: &GenStats) {
    }
}

/// One completed generation: the deduplicated canonical shapes of one cell
/// count, with its statistics.
pub struct Generation {
    /// Cell count of every shape of this generation.
    pub size: usize,
    /// The deduplicated canonical shapes.
    pub shapes: Vec<Shape>,
    /// The counters accumulated while building this generation.
    pub stats: GenStats,
}

/// The single-cell seed: one cell at the origin.
pub open spec fn seed_cells() -> Set<(int, int)> {
    Set::empty().insert((0, 0))
}

/// Well-formedness of one stored generation of size `n`.
pub open spec fn gen_wf(g: Generation, n: nat) -> bool {
    &&& g.size == n
    &&& distinct_grids(g.shapes@)
    &&& forall|j: int| 0 <= j < g.shapes@.len() ==> gen_shape_ok(#[trigger] g.shapes@[j], n)
    &&& g.stats.size == n
    &&& g.stats.found == g.shapes@.len()
}

/// The whole run is well-formed: generation `i` holds the shapes of size
/// `i + 1`; each later generation is exactly the deduplicated canonical
/// expansion of the one before it, and its counters are the exact
/// (saturating) totals of that expansion.
pub open spec fn generations_wf(gs: Seq<Generation>) -> bool {
    &&& forall|i: int| 0 <= i < gs.len() ==> gen_wf(#[trigger] gs[i], (i + 1) as nat)
    &&& forall|i: int|
        1 <= i < gs.len() ==> grids_of((#[trigger] gs[i]).shapes@) == children_of(
            gs[i - 1].shapes@,
        )
    &&& forall|i: int|
        1 <= i < gs.len() ==> (#[trigger] gs[i]).stats.points_tried == sat64(
            shard_moves(gs[i - 1].shapes@),
        ) && gs[i].stats.polys_tried == sat64(shard_tried(gs[i - 1].shapes@))
}

/// Enumerate all canonical polyominoes of sizes `1..=max_n`, rotation-only
/// equivalence, reporting each generation's statistics to the sink.  Growth
/// of each generation is fanned out over `workers` parallel tasks; the
/// result does not depend on the worker count.
pub fn generate_polycubes<S: MetricsSink>(max_n: usize, workers: usize, sink: &mut S) -> (r:
    Result<Vec<Generation>, PolyError>)
    requires
        workers >= 1,
    ensures
        max_n == 0 <==> r == Err::<Vec<Generation>, PolyError>(PolyError::InvalidInput),
        r matches Ok(gens) ==> {
            &&& gens@.len() == max_n
            &&& generations_wf(gens@)
            &&& gens@[0].shapes@.len() == 1
            &&& is_canon_grid(seed_cells(), gens@[0].shapes@[0].rows())
            &&& gens@[0].stats == (GenStats {
                size: 1usize,
                points_tried: 1u64,
                polys_tried: 1u64,
                found: 1usize,
            })
        },
        1 <= max_n <= 64 ==> r is Ok,
        r matches Err(e) ==> (e is InvalidInput || (e matches PolyError::CapacityExceeded {
            size,
        } && 64 < size <= max_n)),
{
    if max_n == 0 {
        return Err(PolyError::InvalidInput);
    }
    let mut gens: Vec<Generation> = Vec::new();
    // generation 1 is the hard-coded base case: the single cell at the origin
    let mut seedpts: Vec<Point> = Vec::new();
    seedpts.push(Point { x: 0, y: 0 });
    let ghost sv = seedpts@;
    proof {
        assert(pts_view(sv).no_duplicates());
        assert(pset(sv) =~= seed_cells()) by {
            assert forall|q: (int, int)| pset(sv).contains(q) == seed_cells().contains(q) by {
                lemma_pset_contains(sv, q);
                if q == (0int, 0int) {
                    assert(sv[0]@ == q);
                }
            }
        }
        assert(is_min(0, seed_cells(), 0) && is_min(1, seed_cells(), 0) && is_max(
            0,
            seed_cells(),
            0,
        ) && is_max(1, seed_cells(), 0)) by {
            assert(seed_cells().contains((0int, 0int)));
        }
        crate::model::lemma_pin_bounds(seed_cells(), 0, 0, 0, 0);
        assert(within_cap(seed_cells())) by {
            reveal(crate::model::within_cap);
        }
    }
    let seed = match Shape::new(seedpts) {
        Ok(s) => s,
        Err(e) => {
            proof {
                assert(false);
            }
            return Err(e);
        },
    };
    proof {
        assert(gen_shape_ok(seed, 1));
        assert(seed.cells().len() == 1) by {
            assert(seed.cells() == seed_cells());
            assert(seed_cells().len() == 1);
        }
    }
    let stats1 = GenStats { size: 1, points_tried: 1, polys_tried: 1, found: 1 };
    sink.on_generation(&stats1);
    let mut shapes1: Vec<Shape> = Vec::new();
    shapes1.push(seed);
    gens.push(Generation { size: 1, shapes: shapes1, stats: stats1 });
    let mut n: usize = 1;
    while n < max_n
        invariant
            1 <= n <= max_n,
            workers >= 1,
            gens@.len() == n,
            generations_wf(gens@),
            gens@[0].shapes@.len() == 1,
            is_canon_grid(seed_cells(), gens@[0].shapes@[0].rows()),
            gens@[0].stats == (GenStats {
                size: 1usize,
                points_tried: 1u64,
                polys_tried: 1u64,
                found: 1usize,
            }),
        decreases max_n - n,
    {
        let ghost pre = gens@;
        let prevgen = &gens[n - 1];
        let step = expand_generation(&prevgen.shapes, n, workers);
        match step {
            Err(e) => {
                proof {
                    // a child exceeds capacity only past the packing width
                    assert(n >= 64) by {
                        if n < 64 {
                            let (j, q) = choose|j: int, q: (int, int)|
                                0 <= j < prevgen.shapes@.len()
                                    && #[trigger] is_valid_move(
                                    prevgen.shapes@[j].cells(),
                                    q,
                                ) && !within_cap(prevgen.shapes@[j].cells().insert(q));
                            let x = prevgen.shapes@[j];
                            assert(gen_shape_ok(x, n as nat));
                            lemma_child_cap(x.cells(), q, x.corner().0, x.corner().1);
                        }
                    }
                }
                return Err(e);
            },
            Ok(res) => {
                let found = res.shapes.len();
                let stats = GenStats {
                    size: n + 1,
                    points_tried: res.points_tried,
                    polys_tried: res.polys_tried,
                    found,
                };
                sink.on_generation(&stats);
                gens.push(Generation { size: n + 1, shapes: res.shapes, stats });
                proof {
                    assert forall|i: int| 0 <= i < gens@.len() implies gen_wf(
                        #[trigger] gens@[i],
                        (i + 1) as nat,
                    ) by {
                        if i < pre.len() {
                            assert(gens@[i] == pre[i]);
                        }
                    }
                    assert forall|i: int| 1 <= i < gens@.len() implies grids_of(
                        (#[trigger] gens@[i]).shapes@,
                    ) == children_of(gens@[i - 1].shapes@) by {
                        if i < pre.len() {
                            assert(gens@[i] == pre[i] && gens@[i - 1] == pre[i - 1]);
                        } else {
                            assert(gens@[i - 1] == pre[i - 1]);
                        }
                    }
                    assert forall|i: int| 1 <= i < gens@.len() implies (
                    #[trigger] gens@[i]).stats.points_tried == sat64(
                        shard_moves(gens@[i - 1].shapes@),
                    ) && gens@[i].stats.polys_tried == sat64(shard_tried(gens@[i - 1].shapes@)) by {
                        if i < pre.len() {
                            assert(gens@[i] == pre[i] && gens@[i - 1] == pre[i - 1]);
                        } else {
                            assert(gens@[i - 1] == pre[i - 1]);
                        }
                    }
                }
                n += 1;
            },
        }
    }
    Ok(gens)
}

} // verus!
