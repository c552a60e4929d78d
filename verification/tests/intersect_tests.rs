use concave_hull::intersect::intersects;
use concave_hull::point::Point;

fn pt(x: i64, y: i64) -> Point {
    Point { x, y, id: 0 }
}

// The labelled fixture points, at two fixed-point units per original unit.
fn fixture(name: char) -> Point {
    match name {
        'A' => pt(0, 0),
        'B' => pt(-3, 6),
        'C' => pt(4, 4),
        'D' => pt(-4, 2),
        'E' => pt(-5, 10),
        'F' => pt(-3, 14),
        'G' => pt(2, 18),
        'H' => pt(-8, 14),
        'I' => pt(6, 20),
        'J' => pt(4, 22),
        'K' => pt(-2, 22),
        'L' => pt(-6, 22),
        'M' => pt(-10, 19),
        'N' => pt(-12, 15),
        'O' => pt(-12, 8),
        'P' => pt(-10, 4),
        _ => unreachable!(),
    }
}

fn check(a1: char, a2: char, b1: char, b2: char, expected: bool) {
    let (a1, a2, b1, b2) = (fixture(a1), fixture(a2), fixture(b1), fixture(b2));
    assert!(intersects((&a1, &a2), (&b1, &b2)) == expected);
    // segment order symmetry
    assert!(intersects((&b1, &b2), (&a1, &a2)) == expected);
}

fn run_intersects_cases() {
    check('B', 'D', 'A', 'C', false);
    check('A', 'B', 'C', 'D', true);
    check('L', 'K', 'H', 'F', false);
    check('E', 'C', 'F', 'B', true);
    check('P', 'C', 'E', 'B', false);
    check('P', 'C', 'A', 'B', true);
    check('O', 'E', 'C', 'F', false);
    check('L', 'C', 'M', 'N', false);
    check('L', 'C', 'N', 'B', false);
    check('L', 'C', 'M', 'K', true);
    check('L', 'C', 'G', 'I', false);
    check('L', 'C', 'I', 'E', true);
    check('M', 'O', 'N', 'F', true);
}

#[test]
fn intersect_test_intersects_function() {
    run_intersects_cases();
}

#[test]
fn lib_test_intersects_function() {
    run_intersects_cases();
}

#[test]
fn intersects_crossing_segments() {
    // segments (0,0)-(-1.5,3.0) and (2,2)-(-2,1), two units per original unit
    let a0 = pt(0, 0);
    let a1 = pt(-3, 6);
    let b0 = pt(4, 4);
    let b1 = pt(-4, 2);
    assert!(intersects((&a0, &a1), (&b0, &b1)));
}

#[test]
fn intersects_non_crossing_segments() {
    // segments (-1.5,3.0)-(-2,1) and (0,0)-(2,2), two units per original unit
    let a0 = pt(-3, 6);
    let a1 = pt(-4, 2);
    let b0 = pt(0, 0);
    let b1 = pt(4, 4);
    assert!(!intersects((&a0, &a1), (&b0, &b1)));
}

#[test]
fn intersects_parallel_lines() {
    let a0 = pt(0, 0);
    let a1 = pt(4, 0);
    let b0 = pt(0, 2);
    let b1 = pt(4, 2);
    assert!(!intersects((&a0, &a1), (&b0, &b1)));
}
