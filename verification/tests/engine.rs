use std::collections::HashSet;

use poly_2d::{generate_polycubes, Algorithm, GenStats, Generation, MetricsSink, NullSink,
    PolyError};

struct CollectingSink {
    seen: Vec<GenStats>,
}

impl MetricsSink for CollectingSink {
    fn on_generation(&mut self, stats: &GenStats) {
        self.seen.push(*stats);
    }
}

fn counts(max_n: usize, workers: usize) -> Vec<usize> {
    let gens = generate_polycubes(max_n, workers, &mut NullSink {}).unwrap();
    gens.iter().map(|g| g.shapes.len()).collect()
}

#[test]
fn one_generation_is_the_single_point() {
    let gens = generate_polycubes(1, 1, &mut NullSink {}).unwrap();
    assert_eq!(gens.len(), 1);
    assert_eq!(gens[0].shapes.len(), 1);
    assert_eq!(gens[0].size, 1);
    let seed = &gens[0].shapes[0];
    assert_eq!(seed.size(), 1);
    assert_eq!(seed.grid().clone(), vec![1u64]);
}

#[test]
fn small_generation_counts() {
    // rotation-only equivalence: mirror images stay distinct, so the counts
    // from size 4 on exceed the free-polyomino counts
    assert_eq!(counts(4, 1), vec![1, 1, 2, 7]);
    assert_eq!(counts(6, 2), vec![1, 1, 2, 7, 18, 60]);
}

#[test]
fn every_generation_shape_has_its_size() {
    let gens = generate_polycubes(5, 2, &mut NullSink {}).unwrap();
    for (i, g) in gens.iter().enumerate() {
        assert_eq!(g.size, i + 1);
        assert!(!g.shapes.is_empty());
        for s in &g.shapes {
            assert_eq!(s.size(), i + 1);
        }
    }
}

#[test]
fn zero_size_is_invalid_input() {
    assert!(matches!(
        generate_polycubes(0, 1, &mut NullSink {}),
        Err(PolyError::InvalidInput)
    ));
}

#[test]
fn reports_statistics_per_generation() {
    let mut sink = CollectingSink { seen: Vec::new() };
    let gens = generate_polycubes(3, 1, &mut sink).unwrap();
    assert_eq!(sink.seen.len(), 3);
    // the base case reports the fixed (1, 1, 1) line
    assert_eq!(
        sink.seen[0],
        GenStats { size: 1, points_tried: 1, polys_tried: 1, found: 1 }
    );
    // one single-cell shape: four moves, all of them open
    assert_eq!(
        sink.seen[1],
        GenStats { size: 2, points_tried: 4, polys_tried: 4, found: 1 }
    );
    // the domino: eight moves, two blocked by the other cell
    assert_eq!(
        sink.seen[2],
        GenStats { size: 3, points_tried: 8, polys_tried: 6, found: 2 }
    );
    for (g, s) in gens.iter().zip(sink.seen.iter()) {
        assert_eq!(g.stats, *s);
    }
}

fn grid_set(gens: &[Generation], i: usize) -> HashSet<Vec<u64>> {
    gens[i].shapes.iter().map(|s| s.grid().clone()).collect()
}

#[test]
fn parallel_and_sequential_agree() {
    let seq = generate_polycubes(6, 1, &mut NullSink {}).unwrap();
    for workers in [2, 3, 8] {
        let par = generate_polycubes(6, workers, &mut NullSink {}).unwrap();
        assert_eq!(seq.len(), par.len());
        for i in 0..seq.len() {
            assert_eq!(grid_set(&seq, i), grid_set(&par, i));
            assert_eq!(seq[i].stats, par[i].stats);
        }
    }
}

#[test]
fn algorithm_selector_parses_either_case() {
    assert_eq!(Algorithm::parse("a32"), Some(Algorithm::A32));
    assert_eq!(Algorithm::parse("A32"), Some(Algorithm::A32));
    assert_eq!(Algorithm::parse("b8"), Some(Algorithm::B8));
    assert_eq!(Algorithm::parse("B8"), Some(Algorithm::B8));
    assert_eq!(Algorithm::parse(""), None);
    assert_eq!(Algorithm::parse("a3"), None);
    assert_eq!(Algorithm::parse("a322"), None);
    assert_eq!(Algorithm::parse("c64"), None);
    assert_eq!("a32".parse::<Algorithm>(), Ok(Algorithm::A32));
    assert!("x".parse::<Algorithm>().is_err());
    assert_eq!(Algorithm::A32.name(), "A32");
    assert_eq!(Algorithm::B8.name(), "B8");
}
