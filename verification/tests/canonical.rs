use std::collections::hash_map::DefaultHasher;
use std::hash::{Hash, Hasher};

use poly_2d::{Point, PolyError, Shape};

//  xxx
// xx
fn rot0() -> Vec<Point> {
    vec![
        Point::new(0, 0),
        Point::new(1, 0),
        Point::new(1, 1),
        Point::new(2, 1),
        Point::new(3, 1),
    ]
}

// x
// x
// xx
//  x
fn rot90() -> Vec<Point> {
    vec![
        Point::new(1, 0),
        Point::new(1, 1),
        Point::new(0, 1),
        Point::new(0, 2),
        Point::new(0, 3),
    ]
}

//   xx
// xxx
fn rot180() -> Vec<Point> {
    vec![
        Point::new(3, 1),
        Point::new(2, 1),
        Point::new(2, 0),
        Point::new(1, 0),
        Point::new(0, 0),
    ]
}

// x
// xx
//  x
//  x
fn rot270() -> Vec<Point> {
    vec![
        Point::new(0, 3),
        Point::new(0, 2),
        Point::new(1, 2),
        Point::new(1, 1),
        Point::new(1, 0),
    ]
}

fn canon(points: Vec<Point>) -> Shape {
    Shape::new(points).unwrap()
}

fn hash_shape(shape: &Shape) -> u64 {
    let mut hasher = DefaultHasher::new();
    shape.grid().hash(&mut hasher);
    hasher.finish()
}

#[test]
fn should_canonicalize() {
    let canonical_rot0 = canon(rot0());
    let canonical_rot90 = canon(rot90());
    let canonical_rot180 = canon(rot180());
    let canonical_rot270 = canon(rot270());

    assert_eq!(canonical_rot0, canonical_rot90);
    assert_eq!(canonical_rot0, canonical_rot180);
    assert_eq!(canonical_rot0, canonical_rot270);

    // non-zero min
    let rot0_all_minus_one_one = canon(
        rot0().iter().map(|p| Point::new(p.x - 1, p.y - 1)).collect::<Vec<Point>>(),
    );
    assert_eq!(rot0_all_minus_one_one, canonical_rot0);

    // hashcode
    assert_eq!(hash_shape(&canonical_rot0), hash_shape(&canonical_rot90));
    assert_eq!(hash_shape(&canonical_rot0), hash_shape(&canonical_rot180));
    assert_eq!(hash_shape(&canonical_rot0), hash_shape(&canonical_rot270));
    assert_eq!(hash_shape(&canonical_rot0), hash_shape(&rot0_all_minus_one_one));

    // level 2
    let l2_up = canon(vec![Point::new(0, 0), Point::new(0, 1)]);
    let l2_right = canon(vec![Point::new(0, 0), Point::new(1, 0)]);
    let l2_down = canon(vec![Point::new(0, 0), Point::new(0, -1)]);
    let l2_left = canon(vec![Point::new(0, 0), Point::new(-1, 0)]);
    assert_eq!(hash_shape(&l2_up), hash_shape(&l2_right));
    assert_eq!(hash_shape(&l2_up), hash_shape(&l2_down));
    assert_eq!(hash_shape(&l2_up), hash_shape(&l2_left));
}

#[test]
fn canonicalization_is_idempotent() {
    let first = canon(rot0());
    let again = canon(first.points().clone());
    assert_eq!(first, again);
    assert_eq!(first.grid(), again.grid());
}

#[test]
fn canonicalization_is_translation_invariant() {
    let base = canon(rot0());
    for (dx, dy) in [(5, -3), (-100, 7), (1000, 1000), (0, -1)] {
        let moved = canon(
            rot0().iter().map(|p| Point::new(p.x + dx, p.y + dy)).collect::<Vec<Point>>(),
        );
        assert_eq!(base, moved);
    }
}

#[test]
fn canonical_grid_is_bit_packed_rows() {
    // the vertical domino wins over the horizontal one in the row order
    let domino = canon(vec![Point::new(0, 0), Point::new(1, 0)]);
    assert_eq!(domino.grid().clone(), vec![1u64, 1u64]);
    assert_eq!(domino.bounds(), Point::new(0, 1));
    assert_eq!(domino.size(), 2);

    // a single cell
    let dot = canon(vec![Point::new(7, -2)]);
    assert_eq!(dot.grid().clone(), vec![1u64]);
    assert_eq!(dot.bounds(), Point::new(0, 0));
}

#[test]
fn rejects_empty_and_oversized_input() {
    assert_eq!(
        Shape::new(Vec::new()),
        Err(PolyError::InternalInvariantViolation { size: 0 })
    );

    // a straight line of 65 cells spans 65 columns: over the packing width
    let long: Vec<Point> = (0..65).map(|x| Point::new(x, 0)).collect();
    assert_eq!(Shape::new(long), Err(PolyError::CapacityExceeded { size: 65 }));

    // 64 cells still fit
    let fits: Vec<Point> = (0..64).map(|x| Point::new(x, 0)).collect();
    assert!(Shape::new(fits).is_ok());
}

#[test]
fn dedup_collapses_rotated_point_sets() {
    let mut set: Vec<Shape> = Vec::new();
    assert!(poly_2d::insert_shape(&mut set, canon(rot0())));
    assert!(!poly_2d::insert_shape(&mut set, canon(rot90())));
    assert_eq!(set.len(), 1);
    assert!(!poly_2d::insert_shape(&mut set, canon(rot270())));
    assert_eq!(set.len(), 1);
    // a genuinely different shape still goes in
    assert!(poly_2d::insert_shape(
        &mut set,
        canon(vec![Point::new(0, 0), Point::new(1, 0)])
    ));
    assert_eq!(set.len(), 2);
}
