use concave_hull::build_once;
use concave_hull::concave_hull;
use concave_hull::concave_hull_from_coords;
use concave_hull::point::Point;
use concave_hull::polygon::multiple_point_in_polygon;
use concave_hull::polygon::point_in_polygon;

fn pt(x: i64, y: i64, id: u64) -> Point {
    Point { x, y, id }
}

// triangle (0,1), (-1,0), (1,0) at two fixed-point units per original unit
fn triangle() -> Vec<Point> {
    vec![pt(0, 2, 0), pt(-2, 0, 1), pt(2, 0, 2)]
}

// square corners (±0.5, ±0.5) plus the centre, two units per original unit
fn square_with_centre() -> Vec<Point> {
    vec![pt(1, 1, 0), pt(-1, 1, 1), pt(-1, -1, 2), pt(1, -1, 3), pt(0, 0, 4)]
}

#[test]
fn test_concave_hull() {
    let point_list = triangle();
    let hull = concave_hull(&point_list, 1, true);
    assert!(hull.len() == 3);

    let point_list = square_with_centre();
    let _hull = concave_hull(&point_list, 1, true);
}

#[test]
fn trivial_sets_come_back_in_input_order() {
    for k in [0usize, 1, 2, 5, 100] {
        let t = triangle();
        let hull = concave_hull(&t, k, true);
        assert_eq!(hull, t);
        let hull = concave_hull(&t, k, false);
        assert_eq!(hull, t);
    }
    let empty: Vec<Point> = Vec::new();
    assert_eq!(concave_hull(&empty, 3, true), empty);
    let two = vec![pt(0, 0, 0), pt(1, 1, 1)];
    assert_eq!(concave_hull(&two, 1, true), two);
}

#[test]
fn square_hull_contains_centre() {
    let points = square_with_centre();
    let hull = concave_hull(&points, 1, true);
    assert!(!hull.is_empty());
    // all five points are returned: every input id appears on the hull
    for id in 0u64..5 {
        assert!(hull.iter().any(|p| p.id == id));
    }
    // growth starts from the lowest-then-leftmost point
    assert_eq!(hull[0], points[2]);
    // the winning attempt walks the boundary clockwise on screen, taking the
    // centre as a dent of the bottom edge
    let ids: Vec<u64> = hull.iter().map(|p| p.id).collect();
    assert_eq!(ids, vec![2, 4, 3, 0, 1]);
    // every input point is a vertex or lies inside the hull polygon
    for p in &points {
        assert!(hull.iter().any(|h| h.id == p.id) || point_in_polygon(p, &hull));
    }
}

#[test]
fn failed_neighbourhood_is_retried_with_larger_k() {
    let points = square_with_centre();
    // one neighbour is not enough for this set ...
    assert!(build_once(&points, 1).is_none());
    // ... so with iteration the driver must move on to larger sizes and win
    let hull = concave_hull(&points, 1, true);
    assert!(!hull.is_empty());
    // while refusing to iterate reports failure at once
    let hull = concave_hull(&points, 1, false);
    assert!(hull.is_empty());
}

#[test]
fn successful_attempt_validates_leftovers() {
    let points = square_with_centre();
    for k in 1usize..5 {
        if let Some(hull) = build_once(&points, k) {
            let leftovers: Vec<Point> =
                points.iter().filter(|p| !hull.iter().any(|h| h.id == p.id)).cloned().collect();
            assert!(multiple_point_in_polygon(&leftovers, &hull));
        }
    }
}

#[test]
fn point_in_polygon_small_polygons() {
    let p = pt(0, 0, 0);
    let empty: Vec<Point> = Vec::new();
    assert!(!point_in_polygon(&p, &empty));
    let one = vec![pt(1, 1, 0)];
    assert!(!point_in_polygon(&p, &one));
    let two = vec![pt(-1, -1, 0), pt(1, 1, 1)];
    assert!(!point_in_polygon(&p, &two));
}

#[test]
fn point_in_polygon_square() {
    let square = vec![pt(-2, -2, 0), pt(2, -2, 1), pt(2, 2, 2), pt(-2, 2, 3)];
    assert!(point_in_polygon(&pt(0, 0, 9), &square));
    assert!(point_in_polygon(&pt(1, 1, 9), &square));
    assert!(!point_in_polygon(&pt(3, 0, 9), &square));
    assert!(!point_in_polygon(&pt(0, 5, 9), &square));
}

#[test]
fn point_in_polygon_rotation_invariant() {
    let square = vec![pt(-2, -2, 0), pt(2, -2, 1), pt(2, 2, 2), pt(-2, 2, 3)];
    let inside = pt(1, 0, 9);
    let outside = pt(4, 1, 9);
    let expected_in = point_in_polygon(&inside, &square);
    let expected_out = point_in_polygon(&outside, &square);
    assert!(expected_in);
    assert!(!expected_out);
    for r in 1..square.len() {
        let mut rotated = Vec::new();
        rotated.extend_from_slice(&square[r..]);
        rotated.extend_from_slice(&square[..r]);
        assert_eq!(point_in_polygon(&inside, &rotated), expected_in);
        assert_eq!(point_in_polygon(&outside, &rotated), expected_out);
    }
}

#[test]
fn coords_entry_assigns_positions_as_ids() {
    let coords: Vec<(i64, i64)> = vec![(0, 2), (-2, 0), (2, 0)];
    let hull = concave_hull_from_coords(&coords, 1, true);
    assert_eq!(hull.len(), 3);
    for (i, p) in hull.iter().enumerate() {
        assert_eq!(p.id, i as u64);
        assert_eq!((p.x, p.y), coords[i]);
    }
}

#[test]
fn concave_hull_of_larger_cloud_stays_simple_and_covering() {
    let coords: Vec<(i64, i64)> = vec![
        (0, 0),
        (8, 0),
        (8, 8),
        (0, 8),
        (4, 2),
        (2, 4),
        (6, 4),
        (4, 6),
        (4, 4),
        (7, 1),
        (1, 7),
    ];
    let hull = concave_hull_from_coords(&coords, 3, true);
    assert!(!hull.is_empty());
    // every input point is a vertex or inside
    for (i, &(x, y)) in coords.iter().enumerate() {
        let p = pt(x, y, i as u64);
        assert!(hull.iter().any(|h| h.id == p.id) || point_in_polygon(&p, &hull));
    }
}
