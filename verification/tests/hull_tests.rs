use geom2d::GeomError;
use geom2d::Vec2;
use geom2d::convex_hull_2;
use geom2d::geo::MAX_COORD;
use geom2d::validate::hull_area2;
use geom2d::validate::hull_is_convex;

// The reference five-point set: a unit square with its centre, placed on the
// grid at twice the coordinates so the centre stays integral.
fn square_with_centre() -> Vec<Vec2> {
    vec![
        Vec2::new(2, 2),
        Vec2::new(0, 0),
        Vec2::new(2, 0),
        Vec2::new(1, 1),
        Vec2::new(0, 2),
    ]
}

#[test]
fn test_convex_hull_2() {
    let points = square_with_centre();

    let chull = convex_hull_2(points.as_slice()).unwrap();

    assert_eq!(chull, vec![1, 2, 0, 4]);
}

#[test]
fn hull_is_deterministic() {
    let points = square_with_centre();
    let first = convex_hull_2(points.as_slice()).unwrap();
    let second = convex_hull_2(points.as_slice()).unwrap();
    assert_eq!(first, second);
    // determinism also under duplicate coordinates
    let mut doubled = square_with_centre();
    doubled.push(Vec2::new(0, 0));
    doubled.push(Vec2::new(2, 2));
    let first = convex_hull_2(doubled.as_slice()).unwrap();
    let second = convex_hull_2(doubled.as_slice()).unwrap();
    assert_eq!(first, second);
}

#[test]
fn hull_of_empty_input_is_empty() {
    let points: Vec<Vec2> = vec![];
    let chull = convex_hull_2(points.as_slice()).unwrap();
    assert_eq!(chull, Vec::<i32>::new());
}

#[test]
fn hull_of_single_point_is_that_point() {
    let points = vec![Vec2::new(3, 4)];
    let chull = convex_hull_2(points.as_slice()).unwrap();
    assert_eq!(chull, vec![0]);
}

#[test]
fn hull_of_two_points_keeps_both() {
    let points = vec![Vec2::new(5, 5), Vec2::new(1, 2)];
    let chull = convex_hull_2(points.as_slice()).unwrap();
    assert_eq!(chull, vec![1, 0]);
}

#[test]
fn hull_of_collinear_points_keeps_extremes() {
    let points = vec![Vec2::new(0, 0), Vec2::new(1, 1), Vec2::new(2, 2), Vec2::new(3, 3)];
    let chull = convex_hull_2(points.as_slice()).unwrap();
    assert_eq!(chull, vec![0, 3]);
}

#[test]
fn hull_of_identical_points_keeps_first() {
    let points = vec![Vec2::new(7, 7), Vec2::new(7, 7), Vec2::new(7, 7)];
    let chull = convex_hull_2(points.as_slice()).unwrap();
    assert_eq!(chull, vec![0]);
}

#[test]
fn hull_ignores_duplicate_coordinates() {
    let points = vec![
        Vec2::new(1, 1),
        Vec2::new(0, 0),
        Vec2::new(1, 0),
        Vec2::new(0, 1),
        Vec2::new(0, 0),
    ];
    let chull = convex_hull_2(points.as_slice()).unwrap();
    assert_eq!(chull, vec![1, 2, 0, 3]);
}

#[test]
fn hull_rejects_coordinate_off_grid() {
    let points = vec![Vec2::new(0, 0), Vec2::new(MAX_COORD + 1, 0)];
    assert_eq!(convex_hull_2(points.as_slice()), Err(GeomError::InvalidInput));
    let points = vec![Vec2::new(0, -MAX_COORD - 1)];
    assert_eq!(convex_hull_2(points.as_slice()), Err(GeomError::InvalidInput));
}

#[test]
fn hull_accepts_extreme_grid_coordinates() {
    let points = vec![
        Vec2::new(-MAX_COORD, -MAX_COORD),
        Vec2::new(MAX_COORD, -MAX_COORD),
        Vec2::new(MAX_COORD, MAX_COORD),
        Vec2::new(-MAX_COORD, MAX_COORD),
    ];
    let chull = convex_hull_2(points.as_slice()).unwrap();
    assert_eq!(chull.len(), 4);
    assert!(hull_is_convex(points.as_slice(), &chull));
}

#[test]
fn hull_of_scattered_points_is_convex_and_contains_all() {
    let points = vec![
        Vec2::new(3, 1),
        Vec2::new(-5, 2),
        Vec2::new(0, 0),
        Vec2::new(7, 4),
        Vec2::new(2, -6),
        Vec2::new(-3, -4),
        Vec2::new(1, 8),
        Vec2::new(4, 4),
        Vec2::new(-2, 5),
        Vec2::new(0, 3),
    ];
    let chull = convex_hull_2(points.as_slice()).unwrap();
    assert!(chull.len() >= 3);
    assert!(hull_is_convex(points.as_slice(), &chull));
}

#[test]
fn hull_area_of_reference_square_is_exact() {
    let points = square_with_centre();
    let chull = convex_hull_2(points.as_slice()).unwrap();
    // the doubled area of the 2-by-2 square
    assert_eq!(hull_area2(points.as_slice(), &chull), 8);
}
