use hull2d::geometry::Point;
use hull2d::hull::convex_hull;

fn pts(coords: &[(i32, i32)]) -> Vec<Point> {
    let mut v: Vec<Point> = Vec::new();
    for &(x, y) in coords {
        v.push(Point::new(x, y));
    }
    v
}

fn cross64(a: Point, b: Point, c: Point) -> i128 {
    let bax = b.x as i128 - a.x as i128;
    let cay = c.y as i128 - a.y as i128;
    let bay = b.y as i128 - a.y as i128;
    let cax = c.x as i128 - a.x as i128;
    bax * cay - bay * cax
}

/// Every cyclic triple of consecutive hull vertices turns strictly left.
fn assert_strictly_convex(hull: &[Point]) {
    let n = hull.len();
    assert!(n >= 3);
    for i in 0..n {
        let a = hull[i];
        let b = hull[(i + 1) % n];
        let c = hull[(i + 2) % n];
        assert!(cross64(a, b, c) > 0, "triple {} not a strict left turn", i);
    }
}

/// Every point lies on the boundary or inside the counter-clockwise polygon.
fn assert_all_contained(hull: &[Point], points: &[Point]) {
    let n = hull.len();
    assert!(n >= 3);
    for &p in points {
        for i in 0..n {
            let a = hull[i];
            let b = hull[(i + 1) % n];
            assert!(cross64(a, b, p) >= 0, "point outside edge {}", i);
        }
    }
}

#[test]
fn test_convex_hull() {
    let xy = pts(&[(0, 0), (10, 10), (10, 0), (5, 5), (7, 1)]);
    let hull = convex_hull(&xy);
    assert_eq!(hull, pts(&[(0, 0), (10, 0), (10, 10)]));
}

#[test]
fn single_point() {
    let hull = convex_hull(&pts(&[(0, 0)]));
    assert_eq!(hull, pts(&[(0, 0)]));
}

#[test]
fn empty_input() {
    let hull = convex_hull(&pts(&[]));
    assert_eq!(hull, pts(&[]));
}

#[test]
fn coincident_pair_deduplicated() {
    let hull = convex_hull(&pts(&[(0, 0), (0, 0)]));
    assert_eq!(hull, pts(&[(0, 0)]));
}

#[test]
fn two_distinct_points_start_at_least() {
    let hull = convex_hull(&pts(&[(1, 0), (0, 0)]));
    assert_eq!(hull, pts(&[(0, 0), (1, 0)]));
}

#[test]
fn interior_points_excluded() {
    let xy = pts(&[(0, 0), (10, 10), (10, 0), (5, 5), (7, 1)]);
    let hull = convex_hull(&xy);
    assert_eq!(hull, pts(&[(0, 0), (10, 0), (10, 10)]));
    assert_strictly_convex(&hull);
    assert_all_contained(&hull, &xy);
}

#[test]
fn quadrilateral_input_with_interior_point() {
    // (4, 6) lies strictly inside the triangle of the other three
    let xy = pts(&[(4, 6), (8, 6), (2, 7), (3, 5)]);
    let hull = convex_hull(&xy);
    assert_eq!(hull, pts(&[(2, 7), (3, 5), (8, 6)]));
    assert_strictly_convex(&hull);
    assert_all_contained(&hull, &xy);
}

#[test]
fn collinear_midpoint_excluded() {
    let hull = convex_hull(&pts(&[(0, 0), (1, 0), (2, 0)]));
    assert_eq!(hull, pts(&[(0, 0), (2, 0)]));
}

#[test]
fn square_counter_clockwise() {
    let xy = pts(&[(1, 1), (0, 1), (0, 0), (1, 0)]);
    let hull = convex_hull(&xy);
    assert_eq!(hull, pts(&[(0, 0), (1, 0), (1, 1), (0, 1)]));
    assert_strictly_convex(&hull);
    assert_all_contained(&hull, &xy);
}

#[test]
fn starting_vertex_is_lexicographic_minimum() {
    let xy = pts(&[(3, 9), (-2, 4), (7, -5), (-2, -4), (0, 0), (5, 5)]);
    let hull = convex_hull(&xy);
    assert_eq!(hull[0], Point::new(-2, -4));
    assert_strictly_convex(&hull);
    assert_all_contained(&hull, &xy);
}

#[test]
fn hull_is_idempotent_on_triangle() {
    let xy = pts(&[(0, 0), (10, 10), (10, 0), (5, 5), (7, 1)]);
    let hull = convex_hull(&xy);
    let again = convex_hull(&hull);
    assert_eq!(again, hull);
}

#[test]
fn hull_is_idempotent_on_square() {
    let xy = pts(&[(1, 1), (0, 1), (0, 0), (1, 0)]);
    let hull = convex_hull(&xy);
    let again = convex_hull(&hull);
    assert_eq!(again, hull);
}

#[test]
fn hull_is_idempotent_on_segment() {
    let hull = convex_hull(&pts(&[(0, 0), (1, 0), (2, 0)]));
    let again = convex_hull(&hull);
    assert_eq!(again, hull);
}

#[test]
fn duplicates_among_many_points() {
    let hull = convex_hull(&pts(&[(0, 0), (0, 0), (1, 0)]));
    assert_eq!(hull, pts(&[(0, 0), (1, 0)]));
}

#[test]
fn all_points_equal() {
    let hull = convex_hull(&pts(&[(5, 5), (5, 5), (5, 5)]));
    assert_eq!(hull, pts(&[(5, 5), (5, 5)]));
}

#[test]
fn extreme_coordinates() {
    let xy = pts(&[
        (i32::MIN, i32::MIN),
        (i32::MAX, i32::MIN),
        (i32::MAX, i32::MAX),
        (0, 0),
    ]);
    let hull = convex_hull(&xy);
    assert_eq!(
        hull,
        pts(&[(i32::MIN, i32::MIN), (i32::MAX, i32::MIN), (i32::MAX, i32::MAX)])
    );
    assert_strictly_convex(&hull);
    assert_all_contained(&hull, &xy);
}

#[test]
fn near_collinear_is_decided_exactly() {
    // (1, 1) is exactly on the segment, (1073741824, 1073741825) is one off it
    let on_line = convex_hull(&pts(&[(0, 0), (1, 1), (2, 2)]));
    assert_eq!(on_line, pts(&[(0, 0), (2, 2)]));
    let off_line = convex_hull(&pts(&[(0, 0), (1073741824, 1073741825), (2147483646, 2147483646)]));
    assert_eq!(off_line.len(), 3);
}
