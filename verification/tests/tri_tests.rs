use geom2d::GeomError;
use geom2d::Triangle;
use geom2d::Vec2;
use geom2d::convex_hull_2;
use geom2d::delaunay_2;
use geom2d::geo::MAX_COORD;
use geom2d::geo::in_circle;
use geom2d::geo::orient;
use geom2d::validate::hull_area2;
use geom2d::validate::is_delaunay;
use geom2d::validate::triangulation_area2;

fn unit_square() -> Vec<Vec2> {
    vec![Vec2::new(1, 1), Vec2::new(0, 0), Vec2::new(1, 0), Vec2::new(0, 1)]
}

// Sorts each triangle's indices and the triangle list, to compare the
// geometric content independently of the output convention.
fn normalized(ts: &[Triangle]) -> Vec<[i32; 3]> {
    let mut out: Vec<[i32; 3]> = ts
        .iter()
        .map(|t| {
            let mut c = [t.0, t.1, t.2];
            c.sort();
            c
        })
        .collect();
    out.sort();
    out
}

#[test]
fn test_delaunay_2() {
    let points = unit_square();

    let dt = delaunay_2(points.as_slice()).unwrap();

    assert_eq!(dt, vec![Triangle(3, 2, 0), Triangle(3, 1, 2)]);
}

#[test]
fn delaunay_square_covers_without_overlap() {
    let points = unit_square();
    let dt = delaunay_2(points.as_slice()).unwrap();
    // the two triangles of the square, each spanning half of it
    assert_eq!(normalized(&dt), vec![[0, 2, 3], [1, 2, 3]]);
    let chull = convex_hull_2(points.as_slice()).unwrap();
    assert_eq!(triangulation_area2(points.as_slice(), &dt), 2);
    assert_eq!(hull_area2(points.as_slice(), &chull), 2);
}

#[test]
fn delaunay_of_empty_and_single_input_is_empty() {
    let points: Vec<Vec2> = vec![];
    assert_eq!(delaunay_2(points.as_slice()).unwrap(), Vec::<Triangle>::new());
    let points = vec![Vec2::new(5, -3)];
    assert_eq!(delaunay_2(points.as_slice()).unwrap(), Vec::<Triangle>::new());
}

#[test]
fn delaunay_of_two_points_is_empty() {
    let points = vec![Vec2::new(0, 0), Vec2::new(4, 1)];
    assert_eq!(delaunay_2(points.as_slice()).unwrap(), Vec::<Triangle>::new());
}

#[test]
fn delaunay_of_collinear_points_is_empty() {
    let points = vec![Vec2::new(0, 0), Vec2::new(2, 1), Vec2::new(4, 2), Vec2::new(6, 3)];
    assert_eq!(delaunay_2(points.as_slice()).unwrap(), Vec::<Triangle>::new());
}

#[test]
fn delaunay_of_three_points_is_one_triangle() {
    let points = vec![Vec2::new(0, 0), Vec2::new(4, 0), Vec2::new(0, 3)];
    let dt = delaunay_2(points.as_slice()).unwrap();
    assert_eq!(normalized(&dt), vec![[0, 1, 2]]);
    // counter-clockwise by the triangle invariant
    let t = dt[0];
    assert!(
        orient(points[t.0 as usize], points[t.1 as usize], points[t.2 as usize]) > 0
    );
}

#[test]
fn delaunay_ignores_duplicate_coordinates() {
    let mut points = unit_square();
    points.push(Vec2::new(0, 0));
    points.push(Vec2::new(1, 1));
    let dt = delaunay_2(points.as_slice()).unwrap();
    assert_eq!(normalized(&dt), vec![[0, 2, 3], [1, 2, 3]]);
}

#[test]
fn delaunay_rejects_coordinate_off_grid() {
    let points = vec![Vec2::new(0, 0), Vec2::new(1, 0), Vec2::new(0, MAX_COORD + 1)];
    assert_eq!(delaunay_2(points.as_slice()), Err(GeomError::InvalidInput));
}

#[test]
fn delaunay_is_deterministic() {
    let points = vec![
        Vec2::new(3, 1),
        Vec2::new(-5, 2),
        Vec2::new(0, 0),
        Vec2::new(7, 4),
        Vec2::new(2, -6),
        Vec2::new(-3, -4),
        Vec2::new(1, 8),
    ];
    let first = delaunay_2(points.as_slice()).unwrap();
    let second = delaunay_2(points.as_slice()).unwrap();
    assert_eq!(first, second);
}

#[test]
fn delaunay_of_scattered_points_has_empty_circumcircles() {
    let points = vec![
        Vec2::new(3, 1),
        Vec2::new(-5, 2),
        Vec2::new(0, 0),
        Vec2::new(7, 4),
        Vec2::new(2, -6),
        Vec2::new(-3, -4),
        Vec2::new(1, 8),
        Vec2::new(4, 4),
        Vec2::new(-2, 5),
        Vec2::new(0, 3),
    ];
    let dt = delaunay_2(points.as_slice()).unwrap();
    assert!(dt.len() >= 8);
    assert!(is_delaunay(points.as_slice(), &dt));
}

#[test]
fn delaunay_area_matches_hull_area() {
    let points = vec![
        Vec2::new(3, 1),
        Vec2::new(-5, 2),
        Vec2::new(0, 0),
        Vec2::new(7, 4),
        Vec2::new(2, -6),
        Vec2::new(-3, -4),
        Vec2::new(1, 8),
        Vec2::new(4, 4),
        Vec2::new(-2, 5),
        Vec2::new(0, 3),
    ];
    let dt = delaunay_2(points.as_slice()).unwrap();
    let chull = convex_hull_2(points.as_slice()).unwrap();
    assert_eq!(
        triangulation_area2(points.as_slice(), &dt),
        hull_area2(points.as_slice(), &chull)
    );
}

#[test]
fn delaunay_covers_hull_at_extreme_grid_coordinates() {
    let points = vec![
        Vec2::new(-MAX_COORD, -MAX_COORD),
        Vec2::new(MAX_COORD, -MAX_COORD),
        Vec2::new(0, MAX_COORD),
        Vec2::new(0, 0),
    ];
    let dt = delaunay_2(points.as_slice()).unwrap();
    assert_eq!(dt.len(), 3);
    assert!(is_delaunay(points.as_slice(), &dt));
    let chull = convex_hull_2(points.as_slice()).unwrap();
    assert_eq!(
        triangulation_area2(points.as_slice(), &dt),
        hull_area2(points.as_slice(), &chull)
    );
}

#[test]
fn delaunay_of_flat_wide_triangle_is_one_triangle() {
    // a very flat, very wide triangle: its circumcircle is astronomically
    // large, which must not disturb the guards at infinity
    let points = vec![Vec2::new(0, 0), Vec2::new(MAX_COORD, 1), Vec2::new(-MAX_COORD, 1)];
    let dt = delaunay_2(points.as_slice()).unwrap();
    assert_eq!(normalized(&dt), vec![[0, 1, 2]]);
    let t = dt[0];
    assert!(orient(points[t.0 as usize], points[t.1 as usize], points[t.2 as usize]) > 0);
    let chull = convex_hull_2(points.as_slice()).unwrap();
    assert_eq!(
        triangulation_area2(points.as_slice(), &dt),
        hull_area2(points.as_slice(), &chull)
    );
}

#[test]
fn delaunay_of_flat_wide_quad_covers_hull() {
    let points = vec![
        Vec2::new(-MAX_COORD, 1),
        Vec2::new(0, 0),
        Vec2::new(MAX_COORD, 1),
        Vec2::new(0, 3),
    ];
    let dt = delaunay_2(points.as_slice()).unwrap();
    assert!(is_delaunay(points.as_slice(), &dt));
    let chull = convex_hull_2(points.as_slice()).unwrap();
    assert_eq!(
        triangulation_area2(points.as_slice(), &dt),
        hull_area2(points.as_slice(), &chull)
    );
}

#[test]
fn in_circle_is_exact_on_cocircular_and_interior_points() {
    // the four corners of a square are cocircular
    let a = Vec2::new(0, 0);
    let b = Vec2::new(1, 0);
    let c = Vec2::new(1, 1);
    let d = Vec2::new(0, 1);
    assert_eq!(in_circle(a, b, c, d), 0);
    // the centre of the circle through (0,0), (2,0), (0,2) lies strictly inside
    let e = Vec2::new(2, 0);
    let f = Vec2::new(0, 2);
    assert!(in_circle(a, e, f, Vec2::new(1, 1)) > 0);
    // a far point lies strictly outside
    assert!(in_circle(a, e, f, Vec2::new(5, 5)) < 0);
}

#[test]
fn orient_is_exact() {
    let a = Vec2::new(0, 0);
    let b = Vec2::new(1, 0);
    let c = Vec2::new(0, 1);
    assert_eq!(orient(a, b, c), 1);
    assert_eq!(orient(a, c, b), -1);
    assert_eq!(orient(a, b, Vec2::new(2, 0)), 0);
}
