//! Grid coordinates with wraparound arithmetic, and the eight directions.

use core::ops::Neg;
use vstd::arithmetic::div_mod::lemma_add_mod_noop;
use vstd::arithmetic::div_mod::lemma_mod_twice;
use vstd::prelude::*;
use vstd::std_specs::ops::AddSpec;
use vstd::std_specs::ops::NegSpec;
use vstd::std_specs::ops::SubSpec;

verus! {

/// A direction of movement on the grid: the four cardinal directions and the
/// four diagonals, each diagonal being one vertical step and one horizontal step.
///
/// `Down` increases `x`, `Right` increases `y`.
#[derive(Copy, Clone, Debug, PartialEq, Eq, Structural)]
pub enum Direction {
    Up,
    Down,
    Left,
    Right,
    UpLeft,
    UpRight,
    DownLeft,
    DownRight,
}

/// A grid coordinate. Both components wrap around modulo 256, so that
/// arithmetic at the edge of the coordinate range never overflows.
#[derive(Copy, Clone, Eq, PartialEq, Ord, PartialOrd, Debug, Structural)]
pub struct Point {
    x: u8,
    y: u8,
}

/// The representative of `v` in `0..256`.
pub open spec fn wrap(v: int) -> int {
    v % 256
}

impl Direction {
    /// The change in `x` that one step in this direction makes: -1, 0 or 1.
    pub open spec fn dx(self) -> int {
        match self {
            Direction::Up | Direction::UpLeft | Direction::UpRight => -1,
            Direction::Down | Direction::DownLeft | Direction::DownRight => 1,
            Direction::Left | Direction::Right => 0,
        }
    }

    /// The change in `y` that one step in this direction makes: -1, 0 or 1.
    pub open spec fn dy(self) -> int {
        match self {
            Direction::Left | Direction::UpLeft | Direction::DownLeft => -1,
            Direction::Right | Direction::UpRight | Direction::DownRight => 1,
            Direction::Up | Direction::Down => 0,
        }
    }

    /// The direction that undoes a step in this one.
    pub open spec fn opposite(self) -> Direction {
        match self {
            Direction::Up => Direction::Down,
            Direction::Down => Direction::Up,
            Direction::Left => Direction::Right,
            Direction::Right => Direction::Left,
            Direction::UpLeft => Direction::DownRight,
            Direction::UpRight => Direction::DownLeft,
            Direction::DownLeft => Direction::UpRight,
            Direction::DownRight => Direction::UpLeft,
        }
    }
}

impl View for Point {
    type V = (int, int);

    /// The coordinates `(x, y)`, each in `0..256`.
    closed spec fn view(&self) -> (int, int) {
        (self.x as int, self.y as int)
    }
}

impl Point {
    /// The point whose coordinates are `x` and `y` taken modulo 256.
    pub closed spec fn wrapped(x: int, y: int) -> Point {
        Point { x: wrap(x) as u8, y: wrap(y) as u8 }
    }

    /// The first coordinate.
    pub fn x(&self) -> (r: u8)
        ensures
            r == self@.0,
    {
        self.x
    }

    /// The second coordinate.
    pub fn y(&self) -> (r: u8)
        ensures
            r == self@.1,
    {
        self.y
    }

    /// The coordinates of a point lie in `0..256`.
    pub proof fn lemma_view_range(p: Point)
        ensures
            0 <= p@.0 < 256,
            0 <= p@.1 < 256,
    {
    }

    /// `wrapped` yields the point whose coordinates are the ones it is given,
    /// reduced modulo 256.
    pub proof fn lemma_wrapped_view(x: int, y: int)
        ensures
            Point::wrapped(x, y)@ == (wrap(x), wrap(y)),
    {
    }

    /// Two points with the same coordinates are the same point.
    pub proof fn lemma_view_injective(p: Point, q: Point)
        requires
            p@ == q@,
        ensures
            p == q,
    {
    }
}

impl vstd::std_specs::convert::FromSpecImpl<(u8, u8)> for Point {
    open spec fn obeys_from_spec() -> bool {
        true
    }

    open spec fn from_spec(v: (u8, u8)) -> Point {
        Point::wrapped(v.0 as int, v.1 as int)
    }
}

impl From<(u8, u8)> for Point {
    /// The point with first coordinate `v.0` and second coordinate `v.1`.
    fn from(v: (u8, u8)) -> (p: Point)
        ensures
            p@ == (v.0 as int, v.1 as int),
    {
        let (x, y) = v;
        Point { x, y }
    }
}

impl vstd::std_specs::ops::NegSpecImpl for Direction {
    open spec fn obeys_neg_spec() -> bool {
        true
    }

    open spec fn neg_req(self) -> bool {
        true
    }

    open spec fn neg_spec(self) -> Direction {
        self.opposite()
    }
}

impl core::ops::Neg for Direction {
    type Output = Direction;

    /// The opposite direction.
    fn neg(self) -> (r: Direction)
        ensures
            r == self.opposite(),
    {
        match self {
            Direction::Up => Direction::Down,
            Direction::Down => Direction::Up,
            Direction::Left => Direction::Right,
            Direction::Right => Direction::Left,
            Direction::UpLeft => Direction::DownRight,
            Direction::UpRight => Direction::DownLeft,
            Direction::DownLeft => Direction::UpRight,
            Direction::DownRight => Direction::UpLeft,
        }
    }
}

impl vstd::std_specs::ops::AddSpecImpl<Point> for Point {
    open spec fn obeys_add_spec() -> bool {
        true
    }

    open spec fn add_req(self, rhs: Point) -> bool {
        true
    }

    open spec fn add_spec(self, rhs: Point) -> Point {
        Point::wrapped(self@.0 + rhs@.0, self@.1 + rhs@.1)
    }
}

impl core::ops::Add<Point> for Point {
    type Output = Point;

    /// Coordinate-wise sum modulo 256.
    fn add(self, rhs: Point) -> (r: Point)
        ensures
            r@ == (wrap(self@.0 + rhs@.0), wrap(self@.1 + rhs@.1)),
    {
        Point { x: self.x.wrapping_add(rhs.x), y: self.y.wrapping_add(rhs.y) }
    }
}

impl vstd::std_specs::ops::SubSpecImpl<Point> for Point {
    open spec fn obeys_sub_spec() -> bool {
        true
    }

    open spec fn sub_req(self, rhs: Point) -> bool {
        true
    }

    open spec fn sub_spec(self, rhs: Point) -> Point {
        Point::wrapped(self@.0 - rhs@.0, self@.1 - rhs@.1)
    }
}

impl core::ops::Sub<Point> for Point {
    type Output = Point;

    /// Coordinate-wise difference modulo 256.
    fn sub(self, rhs: Point) -> (r: Point)
        ensures
            r@ == (wrap(self@.0 - rhs@.0), wrap(self@.1 - rhs@.1)),
    {
        Point { x: self.x.wrapping_sub(rhs.x), y: self.y.wrapping_sub(rhs.y) }
    }
}

impl vstd::std_specs::ops::AddSpecImpl<Direction> for Point {
    open spec fn obeys_add_spec() -> bool {
        true
    }

    open spec fn add_req(self, rhs: Direction) -> bool {
        true
    }

    open spec fn add_spec(self, rhs: Direction) -> Point {
        Point::wrapped(self@.0 + rhs.dx(), self@.1 + rhs.dy())
    }
}

impl core::ops::Add<Direction> for Point {
    type Output = Point;

    /// One step in the direction `rhs`, wrapping around at the edge of the
    /// coordinate range.
    fn add(self, rhs: Direction) -> (r: Point)
        ensures
            r@ == (wrap(self@.0 + rhs.dx()), wrap(self@.1 + rhs.dy())),
    {
        match rhs {
            Direction::Down => Point { x: self.x.wrapping_add(1), y: self.y },
            Direction::Right => Point { x: self.x, y: self.y.wrapping_add(1) },
            Direction::Up => Point { x: self.x.wrapping_sub(1), y: self.y },
            Direction::Left => Point { x: self.x, y: self.y.wrapping_sub(1) },
            Direction::UpLeft => Point { x: self.x.wrapping_sub(1), y: self.y.wrapping_sub(1) },
            Direction::UpRight => Point { x: self.x.wrapping_sub(1), y: self.y.wrapping_add(1) },
            Direction::DownLeft => Point { x: self.x.wrapping_add(1), y: self.y.wrapping_sub(1) },
            Direction::DownRight => Point { x: self.x.wrapping_add(1), y: self.y.wrapping_add(1) },
        }
    }
}

impl vstd::std_specs::ops::SubSpecImpl<Direction> for Point {
    open spec fn obeys_sub_spec() -> bool {
        true
    }

    open spec fn sub_req(self, rhs: Direction) -> bool {
        true
    }

    open spec fn sub_spec(self, rhs: Direction) -> Point {
        Point::wrapped(self@.0 - rhs.dx(), self@.1 - rhs.dy())
    }
}

impl core::ops::Sub<Direction> for Point {
    type Output = Point;

    /// One step against the direction `rhs`: the same as a step in its opposite.
    fn sub(self, rhs: Direction) -> (r: Point)
        ensures
            r@ == (wrap(self@.0 - rhs.dx()), wrap(self@.1 - rhs.dy())),
            r == self.add_spec(rhs.opposite()),
    {
        self + rhs.neg()
    }
}

impl vstd::std_specs::ops::AddSpecImpl<Direction> for Direction {
    open spec fn obeys_add_spec() -> bool {
        true
    }

    open spec fn add_req(self, rhs: Direction) -> bool {
        true
    }

    open spec fn add_spec(self, rhs: Direction) -> Point {
        Point::wrapped(self.dx() + rhs.dx(), self.dy() + rhs.dy())
    }
}

impl core::ops::Add<Direction> for Direction {
    type Output = Point;

    /// The offset reached from the origin by a step in `self` and then one in `rhs`.
    fn add(self, rhs: Direction) -> (r: Point)
        ensures
            r@ == (wrap(self.dx() + rhs.dx()), wrap(self.dy() + rhs.dy())),
    {
        Point::from((0, 0)) + self + rhs
    }
}

/// Taking the opposite twice gives the direction back.
pub proof fn lemma_opposite_involution(d: Direction)
    ensures
        d.opposite().opposite() == d,
        d.neg_spec().neg_spec() == d,
{
}

/// A step in a direction followed by a step in the opposite direction
/// returns to the point it started from, wherever that point lies; so does
/// a step followed by the subtraction of the same direction.
pub proof fn lemma_step_and_back(p: Point, d: Direction)
    ensures
        p.add_spec(d).add_spec(d.opposite()) == p,
        p.add_spec(d).sub_spec(d) == p,
        p.sub_spec(d) == p.add_spec(d.opposite()),
{
}

/// A direction composed with its opposite is the zero offset.
pub proof fn lemma_opposites_cancel(d: Direction)
    ensures
        d.add_spec(d.opposite()) == Point::wrapped(0, 0),
        d.add_spec(d.opposite())@ == (0int, 0int),
{
}

/// Addition of points is commutative.
pub proof fn lemma_add_commutative(a: Point, b: Point)
    ensures
        a.add_spec(b) == b.add_spec(a),
{
}

/// Reducing a summand before the addition does not change the reduced sum.
proof fn lemma_wrap_absorbs(x: int, y: int)
    ensures
        wrap(wrap(x) + y) == wrap(x + y),
        wrap(x + wrap(y)) == wrap(x + y),
{
    lemma_add_mod_noop(x, y, 256);
    lemma_add_mod_noop(x % 256, y, 256);
    lemma_add_mod_noop(x, y % 256, 256);
    lemma_mod_twice(x, 256);
    lemma_mod_twice(y, 256);
}

/// Addition of points is associative.
pub proof fn lemma_add_associative(a: Point, b: Point, c: Point)
    ensures
        a.add_spec(b).add_spec(c) == a.add_spec(b.add_spec(c)),
{
    let ab = a.add_spec(b);
    let bc = b.add_spec(c);
    Point::lemma_wrapped_view(a@.0 + b@.0, a@.1 + b@.1);
    Point::lemma_wrapped_view(b@.0 + c@.0, b@.1 + c@.1);
    Point::lemma_wrapped_view(ab@.0 + c@.0, ab@.1 + c@.1);
    Point::lemma_wrapped_view(a@.0 + bc@.0, a@.1 + bc@.1);
    lemma_wrap_absorbs(a@.0 + b@.0, c@.0);
    lemma_wrap_absorbs(a@.1 + b@.1, c@.1);
    lemma_wrap_absorbs(a@.0, b@.0 + c@.0);
    lemma_wrap_absorbs(a@.1, b@.1 + c@.1);
    Point::lemma_view_injective(ab.add_spec(c), a.add_spec(bc));
}

/// Subtracting a point undoes adding it.
pub proof fn lemma_add_then_sub(a: Point, b: Point)
    ensures
        a.add_spec(b).sub_spec(b) == a,
{
}

} // verus!
