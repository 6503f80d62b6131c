mod config;
mod driver;
mod errors;
mod expand;
mod geom;
mod grid;
mod model;
mod parallel;
mod shape;

pub use config::{Algorithm, Cli, Commands, Poly2d};
pub use driver::{generate_polycubes, gen_wf, generations_wf, seed_cells, GenStats, Generation,
    MetricsSink, NullSink};
pub use errors::PolyError;
pub use expand::{children_of, distinct_grids, expand_shard, gen_shape_ok, grids_of,
    has_bad_child, in_child_grids, insert_shape, is_valid_move, sat64, shard_moves, shard_post,
    shard_tried, ShardResult};
pub use geom::{adjacent, move_of, pset, pts_view, rot_pt, tr_pt, Point};
pub use grid::{bit64, grid_ok, lex_lt, pick2, pick4};
pub use model::{cand_set, connected_set, rot_set, tr_set, wf_pts, within_cap};
pub use parallel::{expand_generation, gen_step_post, lemma_parallel_sequential_equivalence};
pub use shape::{is_canon_grid, lemma_canon_grid_unique, lemma_canonical_idempotent,
    lemma_dedup_rotated,
    lemma_canonical_rotation_invariant, lemma_canonical_translation_invariant, Shape};
