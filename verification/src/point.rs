use vstd::prelude::*;

verus! {

/// Largest coordinate magnitude the geometry accepts.  Keeping coordinates in
/// this range lets every intermediate product of the exact predicates fit in
/// the fixed-width integers they are computed in.
pub const COORD_BOUND: i64 = 1048576;

/// Largest denominator of a bearing between two in-range points:
/// `|dx| + |dy| <= 4 * COORD_BOUND`.
pub const BEARING_DEN_BOUND: i64 = 4194304;

/// Largest denominator of any angle value handled here: the product of two
/// bearing denominators, as produced when one bearing is taken relative to
/// another.
pub const ANGLE_DEN_BOUND: i64 = 17592186044416;

/// 2D point with an identifier.  The identifier ties a point to its position
/// in the original input and is used to match points between the working set
/// and the hull under construction.
#[derive(Clone, Copy, PartialEq, Eq, Structural, Debug)]
pub struct Point {
    /// x coordinate
    pub x: i64,
    /// y coordinate
    pub y: i64,
    /// identifier
    pub id: u64,
}

impl Point {
    /// Both coordinates are within the range the geometry accepts.
    pub open spec fn in_bounds(self) -> bool {
        -COORD_BOUND <= self.x <= COORD_BOUND && -COORD_BOUND <= self.y <= COORD_BOUND
    }

    /// Coordinate equality, ignoring the identifier.
    pub open spec fn same_coords(self, other: Point) -> bool {
        self.x == other.x && self.y == other.y
    }

    pub fn new(x: i64, y: i64, id: u64) -> (p: Point)
        ensures
            p == (Point { x, y, id }),
    {
        Point { x, y, id }
    }

    /// Bearing from `self` to `b`, measured clockwise (with y growing
    /// downward on screen) from the positive x direction, as an exact
    /// rational number of quarter turns in `[0, 4)`.  The bearing of
    /// coincident points is degenerate, so callers must keep them apart.
    pub fn angle(&self, b: &Point) -> (r: Angle)
        requires
            self.in_bounds(),
            b.in_bounds(),
            !self.same_coords(*b),
        ensures
            r.num == bear_num(*self, *b),
            r.den == bear_den(*self, *b),
            r.normalized(),
            r.bearing_sized(),
    {
        bearing(self, b)
    }
}

/// An exact angular value: the rational `num / den`, measured in quarter
/// turns.  A full turn is 4; values produced by `Point::angle` and
/// `normalise_angle` lie in `[0, 4)`.  The mapping from a direction to its
/// quarter-turn value is continuous and strictly increasing in the clockwise
/// (screen) sense, so comparing two `Angle` values orders directions exactly
/// as comparing their bearings in radians would.
#[derive(Clone, Copy, PartialEq, Eq, Structural, Debug)]
pub struct Angle {
    /// numerator
    pub num: i64,
    /// denominator, always positive
    pub den: i64,
}

impl Angle {
    /// A well-formed angle: positive bounded denominator, value in `(-4, 4)`.
    pub open spec fn valid(self) -> bool {
        1 <= self.den <= ANGLE_DEN_BOUND && -4 * self.den <= self.num <= 4 * self.den
    }

    /// A well-formed angle whose value lies in `[0, 4)`.
    pub open spec fn normalized(self) -> bool {
        self.valid() && 0 <= self.num < 4 * self.den
    }

    /// An angle whose denominator is small enough to come from a single
    /// bearing between two in-range points.
    pub open spec fn bearing_sized(self) -> bool {
        self.den <= BEARING_DEN_BOUND
    }

    /// The value of `self` as a fraction is at least that of `other`.
    pub open spec fn ge_spec(self, other: Angle) -> bool {
        self.num * other.den >= other.num * self.den
    }
}

/// Denominator of the quarter-turn value of direction `(dx, dy)`.
pub open spec fn pa_den(dx: int, dy: int) -> int {
    (if dx < 0 { -dx } else { dx }) + (if dy < 0 { -dy } else { dy })
}

/// Numerator of the quarter-turn value of direction `(dx, dy)`: 0 points
/// along the positive x axis, 1 along negative y, 2 along negative x, 3 along
/// positive y, growing clockwise in screen coordinates (y downward).
pub open spec fn pa_num(dx: int, dy: int) -> int {
    if dy < 0 && dx >= 0 {
        -dy
    } else if dy == 0 && dx > 0 {
        0
    } else if dx < 0 && dy <= 0 {
        -2 * dx - dy
    } else if dy > 0 && dx <= 0 {
        -2 * dx + 3 * dy
    } else {
        4 * dx + 3 * dy
    }
}

/// Numerator of the bearing from `a` to `b`; coincident points get the
/// degenerate bearing 0, as a total extension for internal use.
pub open spec fn bear_num(a: Point, b: Point) -> int {
    if a.same_coords(b) {
        0
    } else {
        pa_num(b.x - a.x, b.y - a.y)
    }
}

/// Denominator of the bearing from `a` to `b`.
pub open spec fn bear_den(a: Point, b: Point) -> int {
    if a.same_coords(b) {
        1
    } else {
        pa_den(b.x - a.x, b.y - a.y)
    }
}

/// The bearing from `a` to `b` as an `Angle` value.
pub open spec fn bearing_spec(a: Point, b: Point) -> Angle {
    Angle { num: bear_num(a, b) as i64, den: bear_den(a, b) as i64 }
}

/// Total version of `Point::angle`: coincident points map to the zero angle.
pub fn bearing(a: &Point, b: &Point) -> (r: Angle)
    requires
        a.in_bounds(),
        b.in_bounds(),
    ensures
        r.num == bear_num(*a, *b),
        r.den == bear_den(*a, *b),
        r == bearing_spec(*a, *b),
        r.normalized(),
        r.bearing_sized(),
{
    let dx: i64 = b.x - a.x;
    let dy: i64 = b.y - a.y;
    if dx == 0 && dy == 0 {
        Angle { num: 0, den: 1 }
    } else if dy < 0 && dx >= 0 {
        Angle { num: -dy, den: dx - dy }
    } else if dy == 0 && dx > 0 {
        Angle { num: 0, den: dx }
    } else if dx < 0 && dy <= 0 {
        Angle { num: (-dx - dy) + (-dx), den: -dx - dy }
    } else if dy > 0 && dx <= 0 {
        Angle { num: (-dx + dy) + (-dx + dy) + dy, den: -dx + dy }
    } else {
        Angle { num: (dx + dy) + (dx + dy) + (dx + dy) + dx, den: dx + dy }
    }
}

/// Fold an angle into the canonical range `[0, 4)` of quarter turns by adding
/// one full turn if it is negative, exactly as a radian bearing would be
/// folded into `[0, 2*pi)` by adding `2*pi`.
pub fn normalise_angle(a: Angle) -> (r: Angle)
    requires
        a.valid(),
    ensures
        r.den == a.den,
        r.num == if a.num < 0 { a.num + 4 * a.den } else { a.num as int },
        a.num < 4 * a.den ==> r.normalized(),
{
    if a.num < 0 {
        Angle { num: a.num + 4 * a.den, den: a.den }
    } else {
        a
    }
}

/// Exact comparison of two angle values by cross-multiplication.
pub fn angle_ge(a: &Angle, b: &Angle) -> (r: bool)
    requires
        a.valid(),
        b.valid(),
    ensures
        r == a.ge_spec(*b),
{
    proof {
        crate::arith::lemma_mul_bound(a.num as int, b.den as int, 8 * ANGLE_DEN_BOUND as int, ANGLE_DEN_BOUND as int);
        crate::arith::lemma_mul_bound(b.num as int, a.den as int, 8 * ANGLE_DEN_BOUND as int, ANGLE_DEN_BOUND as int);
    }
    (a.num as i128) * (b.den as i128) >= (b.num as i128) * (a.den as i128)
}

/// Ephemeral record pairing a candidate point with its squared distance and
/// its angle relative to the point the hull is currently growing from.
#[derive(Clone, Copy)]
pub struct PointValue {
    /// identified point
    pub point: Point,
    /// squared distance to the growth point
    pub distance: i64,
    /// angle from the growth point
    pub angle: Angle,
}

} // verus!
