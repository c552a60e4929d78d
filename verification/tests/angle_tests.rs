use concave_hull::point::normalise_angle;
use concave_hull::point::Angle;
use concave_hull::point::Point;

fn origin() -> Point {
    Point { x: 0, y: 0, id: 0 }
}

fn check_angle(x: i64, y: i64, num: i64, den: i64) {
    let a = origin().angle(&Point { x, y, id: 0 });
    assert_eq!(a.num, num);
    assert_eq!(a.den, den);
    // always within one full turn
    assert!(0 <= a.num && a.num < 4 * a.den);
}

// The twelve compass directions of the original fixture, as exact quarter-turn
// fractions: 0 is east, 1 south (screen), 2 west, 3 north, growing clockwise.
fn run_angle_cases() {
    check_angle(5, 0, 0, 5);
    check_angle(4, 3, 25, 7);
    check_angle(3, 4, 24, 7);
    check_angle(0, 5, 15, 5);
    check_angle(-3, 4, 18, 7);
    check_angle(-4, 3, 17, 7);
    check_angle(-5, 0, 10, 5);
    check_angle(-4, -3, 11, 7);
    check_angle(-3, -4, 10, 7);
    check_angle(0, -5, 5, 5);
    check_angle(3, -4, 4, 7);
    check_angle(4, -3, 3, 7);
}

#[test]
fn point_test_angle_function() {
    run_angle_cases();
}

#[test]
fn lib_test_angle_function() {
    run_angle_cases();
}

#[test]
fn angle_order_matches_bearings() {
    // walked in the original listing order, the bearings descend strictly
    // after the first entry, exactly as the radian values do
    let dirs: [(i64, i64); 11] = [
        (4, 3),
        (3, 4),
        (0, 5),
        (-3, 4),
        (-4, 3),
        (-5, 0),
        (-4, -3),
        (-3, -4),
        (0, -5),
        (3, -4),
        (4, -3),
    ];
    let mut prev: Option<Angle> = None;
    for (x, y) in dirs {
        let a = origin().angle(&Point { x, y, id: 0 });
        if let Some(p) = prev {
            assert!((p.num as i128) * (a.den as i128) > (a.num as i128) * (p.den as i128));
        }
        prev = Some(a);
    }
}

#[test]
fn sort_by_angle_takes_sharpest_clockwise_turn_first() {
    let from = origin();
    let east = Angle { num: 0, den: 1 };
    let mut values = Vec::new();
    for (i, (x, y)) in [(1i64, 0i64), (0, 1), (-1, 0), (0, -1)].iter().enumerate() {
        values.push(concave_hull::point::PointValue {
            point: Point { x: *x, y: *y, id: i as u64 },
            distance: 1,
            angle: east,
        });
    }
    let sorted = concave_hull::sort_by_angle(&values, &from, east);
    let ids: Vec<u64> = sorted.iter().map(|p| p.id).collect();
    // bearings relative to east: north 3, west 2, south 1, east 0
    assert_eq!(ids, vec![1, 2, 3, 0]);
}

#[test]
fn normalise_angle_wraps_negative() {
    let a = normalise_angle(Angle { num: -3, den: 2 });
    assert_eq!(a.num, 5);
    assert_eq!(a.den, 2);
}

#[test]
fn normalise_angle_keeps_canonical() {
    let a = normalise_angle(Angle { num: 3, den: 2 });
    assert_eq!(a.num, 3);
    assert_eq!(a.den, 2);
}
