//! Vectors, rectangles and projections onto an axis.
use crate::fixed::{
    diff, fx_add, fx_div, fx_hypot, fx_mul, fx_sub, hypot, lemma_root_exists, lemma_square_smaller,
    lemma_toward_zero, magnitude, prod, ratio, root, sum, toward_zero, HALF, ONE,
};
use vstd::prelude::*;

verus! {

/// A point or a displacement of the plane, in fixed-point coordinates.
#[derive(Clone, Copy, Debug)]
pub struct Vector {
    pub x: i64,
    pub y: i64,
}

impl Vector {
    /// The vector with the coordinates `x` and `y`.
    pub fn new(x: i64, y: i64) -> (v: Self)
        ensures
            v == (Vector { x, y }),
    {
        Self { x, y }
    }

    /// The vector of no length.
    pub fn zero() -> (v: Self)
        ensures
            v == (Vector { x: 0, y: 0 }),
    {
        Self::new(0, 0)
    }

    /// The first coordinate.
    pub fn x(&self) -> (r: i64)
        ensures
            r == self.x,
    {
        self.x
    }

    /// The second coordinate.
    pub fn y(&self) -> (r: i64)
        ensures
            r == self.y,
    {
        self.y
    }

    /// The sum of two vectors, coordinate by coordinate.
    pub open spec fn plus(self, right: Vector) -> Vector {
        Vector { x: sum(self.x, right.x), y: sum(self.y, right.y) }
    }

    /// The difference of two vectors, coordinate by coordinate.
    pub open spec fn minus(self, right: Vector) -> Vector {
        Vector { x: diff(self.x, right.x), y: diff(self.y, right.y) }
    }

    /// The vector with both coordinates multiplied by `right`.
    pub open spec fn scaled(self, right: i64) -> Vector {
        Vector { x: prod(self.x, right), y: prod(self.y, right) }
    }

    /// The dot product.
    pub open spec fn spec_dot(&self, other: &Self) -> i64 {
        sum(prod(self.x, other.x), prod(self.y, other.y))
    }

    /// The squared length, computed in fixed point.
    pub open spec fn spec_dot_sqr(&self) -> i64 {
        sum(prod(self.x, self.x), prod(self.y, self.y))
    }

    /// The Euclidean length, rounded down to a raw unit: the integer square
    /// root of the exact sum of the squared raw coordinates.
    pub open spec fn spec_len(&self) -> i64 {
        hypot(self.x, self.y)
    }

    /// The vector divided by its length; the zero vector for the zero vector.
    pub open spec fn spec_norm(&self) -> Self {
        Vector { x: ratio(self.x, self.spec_len()), y: ratio(self.y, self.spec_len()) }
    }

    /// The dot product.
    #[verifier::when_used_as_spec(spec_dot)]
    pub fn dot(&self, other: &Self) -> (r: i64)
        ensures
            r == self.spec_dot(other),
    {
        fx_add(fx_mul(self.x(), other.x()), fx_mul(self.y(), other.y()))
    }

    /// The squared length, computed in fixed point.
    #[verifier::when_used_as_spec(spec_dot_sqr)]
    pub fn dot_sqr(&self) -> (r: i64)
        ensures
            r == self.spec_dot_sqr(),
    {
        fx_add(fx_mul(self.x(), self.x()), fx_mul(self.y(), self.y()))
    }

    /// The Euclidean length, rounded down to a raw unit.
    #[verifier::when_used_as_spec(spec_len)]
    pub fn len(&self) -> (r: i64)
        ensures
            r == self.spec_len(),
            r >= 0,
    {
        fx_hypot(self.x, self.y)
    }

    /// The vector divided by its length; the zero vector for the zero
    /// vector.
    #[verifier::when_used_as_spec(spec_norm)]
    pub fn norm(&self) -> (r: Self)
        ensures
            r == self.spec_norm(),
    {
        let len: i64 = self.len();
        Self::new(fx_div(self.x, len), fx_div(self.y, len))
    }
}

impl vstd::std_specs::ops::MulSpecImpl<i64> for Vector {
    open spec fn obeys_mul_spec() -> bool {
        true
    }

    open spec fn mul_req(self, right: i64) -> bool {
        true
    }

    open spec fn mul_spec(self, right: i64) -> Vector {
        self.scaled(right)
    }
}

impl std::ops::Mul<i64> for Vector {
    type Output = Self;

    fn mul(self, right: i64) -> (r: Self) {
        Self::new(fx_mul(self.x, right), fx_mul(self.y, right))
    }
}

impl vstd::std_specs::ops::AddSpecImpl<Vector> for Vector {
    open spec fn obeys_add_spec() -> bool {
        true
    }

    open spec fn add_req(self, right: Vector) -> bool {
        true
    }

    open spec fn add_spec(self, right: Vector) -> Vector {
        self.plus(right)
    }
}

impl std::ops::Add<Vector> for Vector {
    type Output = Self;

    fn add(self, right: Vector) -> (r: Self) {
        Self::new(fx_add(self.x, right.x), fx_add(self.y, right.y))
    }
}

impl std::ops::AddAssign<Vector> for Vector {
    fn add_assign(&mut self, right: Vector)
        ensures
            *final(self) == old(self).plus(right),
    {
        self.x = fx_add(self.x, right.x);
        self.y = fx_add(self.y, right.y);
    }
}

impl vstd::std_specs::ops::SubSpecImpl<Vector> for Vector {
    open spec fn obeys_sub_spec() -> bool {
        true
    }

    open spec fn sub_req(self, right: Vector) -> bool {
        true
    }

    open spec fn sub_spec(self, right: Vector) -> Vector {
        self.minus(right)
    }
}

impl std::ops::Sub<Vector> for Vector {
    type Output = Self;

    fn sub(self, right: Vector) -> (r: Self) {
        Self::new(fx_sub(self.x, right.x), fx_sub(self.y, right.y))
    }
}

impl std::ops::SubAssign<Vector> for Vector {
    fn sub_assign(&mut self, right: Vector)
        ensures
            *final(self) == old(self).minus(right),
    {
        self.x = fx_sub(self.x, right.x);
        self.y = fx_sub(self.y, right.y);
    }
}

/// An axis-aligned box given by its top-left corner `coord` and its `size`.
///
/// The same pair also describes a projection axis: `coord` is then the
/// origin of the axis and `size` its direction.
#[derive(Clone, Copy, Debug)]
pub struct Rectangle {
    pub coord: Vector,
    pub size: Vector,
}

impl Rectangle {
    /// The box with its corner at `(x, y)`, `w` wide and `h` high.
    pub fn new(x: i64, y: i64, w: i64, h: i64) -> (r: Self)
        ensures
            r == (Rectangle { coord: Vector { x, y }, size: Vector { x: w, y: h } }),
    {
        Self { coord: Vector::new(x, y), size: Vector::new(w, h) }
    }

    /// The box with its corner at `coord` and of the size `size`.
    pub fn new_vec(coord: Vector, size: Vector) -> (r: Self)
        ensures
            r == (Rectangle { coord, size }),
    {
        Self { coord, size }
    }

    /// The left edge.
    pub open spec fn spec_left(&self) -> i64 {
        self.coord.x
    }

    /// The right edge: the left edge plus the width.
    pub open spec fn spec_right(&self) -> i64 {
        sum(self.coord.x, self.size.x)
    }

    /// The top edge.
    pub open spec fn spec_top(&self) -> i64 {
        self.coord.y
    }

    /// The bottom edge: the top edge plus the height.
    pub open spec fn spec_bottom(&self) -> i64 {
        sum(self.coord.y, self.size.y)
    }

    /// The middle of the box: the corner plus half the size.
    pub open spec fn spec_center(&self) -> Vector {
        self.coord.plus(self.size.scaled(HALF))
    }

    /// The four corners, clockwise from the top-left one.
    pub open spec fn corners(&self) -> Seq<Vector> {
        seq![
            Vector { x: self.left(), y: self.top() },
            Vector { x: self.right(), y: self.top() },
            Vector { x: self.right(), y: self.bottom() },
            Vector { x: self.left(), y: self.bottom() },
        ]
    }

    /// The two boxes share a point: on neither axis does one end before the
    /// other begins.  Boxes that only touch do overlap.
    pub open spec fn overlaps(&self, other: &Rectangle) -> bool {
        !(self.left() > other.right() || self.right() < other.left() || self.top()
            > other.bottom() || self.bottom() < other.top())
    }

    /// The left edge.
    #[verifier::when_used_as_spec(spec_left)]
    pub fn left(&self) -> (r: i64)
        ensures
            r == self.spec_left(),
    {
        self.coord.x
    }

    /// The right edge.
    #[verifier::when_used_as_spec(spec_right)]
    pub fn right(&self) -> (r: i64)
        ensures
            r == self.spec_right(),
    {
        fx_add(self.coord.x, self.size.x)
    }

    /// The top edge.
    #[verifier::when_used_as_spec(spec_top)]
    pub fn top(&self) -> (r: i64)
        ensures
            r == self.spec_top(),
    {
        self.coord.y
    }

    /// The bottom edge.
    #[verifier::when_used_as_spec(spec_bottom)]
    pub fn bottom(&self) -> (r: i64)
        ensures
            r == self.spec_bottom(),
    {
        fx_add(self.coord.y, self.size.y)
    }

    /// The middle of the box.
    #[verifier::when_used_as_spec(spec_center)]
    pub fn center(&self) -> (r: Vector)
        ensures
            r == self.spec_center(),
    {
        self.coord + self.size * HALF
    }

    /// The four corners, clockwise from the top-left one.
    pub fn points(&self) -> (r: Vec<Vector>)
        ensures
            r@ == self.corners(),
    {
        let mut r: Vec<Vector> = Vec::with_capacity(4);
        r.push(Vector::new(self.left(), self.top()));
        r.push(Vector::new(self.right(), self.top()));
        r.push(Vector::new(self.right(), self.bottom()));
        r.push(Vector::new(self.left(), self.bottom()));
        assert(r@ =~= self.corners());
        r
    }

    /// Whether the two boxes share a point.
    pub fn collides_with(&self, other: &Rectangle) -> (r: bool)
        ensures
            r == self.overlaps(other),
    {
        !(self.left() > other.right() || self.right() < other.left() || self.top()
            > other.bottom() || self.bottom() < other.top())
    }
}

/// The signed position of `point` along the axis `line`: the dot product of
/// `point - line.coord` with the direction `line.size`.
pub open spec fn projection(line: &Rectangle, point: Vector) -> i64 {
    point.minus(line.coord).dot(&line.size)
}

/// The least projection among `points`; `i64::MAX` when there is none.
pub open spec fn lowest(line: &Rectangle, points: Seq<Vector>) -> i64
    decreases points.len(),
{
    if points.len() == 0 {
        i64::MAX
    } else {
        let rest = lowest(line, points.drop_last());
        let p = projection(line, points.last());
        if p < rest {
            p
        } else {
            rest
        }
    }
}

/// The greatest projection among `points`; `i64::MIN` when there is none.
pub open spec fn highest(line: &Rectangle, points: Seq<Vector>) -> i64
    decreases points.len(),
{
    if points.len() == 0 {
        i64::MIN
    } else {
        let rest = highest(line, points.drop_last());
        let p = projection(line, points.last());
        if p > rest {
            p
        } else {
            rest
        }
    }
}

/// The interval that a circle covers on the axis `line`: the projection of
/// its center, widened by the radius on both sides.
pub open spec fn circle_shadow(line: &Rectangle, center: Vector, radius: i64) -> Vector {
    Vector {
        x: diff(projection(line, center), radius),
        y: sum(projection(line, center), radius),
    }
}

/// The interval from `lowest` to `highest` is tight: it holds the projection
/// of every point, and both of its ends are the projection of some point.
pub proof fn lemma_shadow_tight(line: &Rectangle, points: Seq<Vector>)
    ensures
        forall|i: int|
            0 <= i < points.len() ==> lowest(line, points) <= #[trigger] projection(
                line,
                points[i],
            ) <= highest(line, points),
        points.len() > 0 ==> exists|i: int|
            0 <= i < points.len() && lowest(line, points) == projection(line, points[i]),
        points.len() > 0 ==> exists|i: int|
            0 <= i < points.len() && highest(line, points) == projection(line, points[i]),
    decreases points.len(),
{
    if points.len() > 0 {
        let init = points.drop_last();
        let k = points.len() - 1;
        lemma_shadow_tight(line, init);
        assert forall|i: int| 0 <= i < points.len() implies lowest(line, points)
            <= #[trigger] projection(line, points[i]) <= highest(line, points) by {
            if i < k {
                assert(init[i] == points[i]);
            }
        }
        if init.len() > 0 {
            let lo = choose|i: int|
                0 <= i < init.len() && lowest(line, init) == projection(line, init[i]);
            let hi = choose|i: int|
                0 <= i < init.len() && highest(line, init) == projection(line, init[i]);
            assert(init[lo] == points[lo]);
            assert(init[hi] == points[hi]);
            if projection(line, points[k]) < lowest(line, init) {
                assert(lowest(line, points) == projection(line, points[k]));
            } else {
                assert(lowest(line, points) == projection(line, points[lo]));
            }
            if projection(line, points[k]) > highest(line, init) {
                assert(highest(line, points) == projection(line, points[k]));
            } else {
                assert(highest(line, points) == projection(line, points[hi]));
            }
        } else {
            assert(lowest(line, points) == projection(line, points[k]));
            assert(highest(line, points) == projection(line, points[k]));
        }
    }
}

/// The signed position of `point` along the axis `line`.
pub fn project_point(line: &Rectangle, point: Vector) -> (r: i64)
    ensures
        r == projection(line, point),
{
    (point - line.coord).dot(&line.size)
}

/// The interval that `points` cover on the axis `line`: from the least
/// projection to the greatest.
pub fn project_points(line: &Rectangle, points: &[Vector]) -> (r: Vector)
    ensures
        r.x == lowest(line, points@),
        r.y == highest(line, points@),
{
    let mut min: i64 = i64::MAX;
    let mut max: i64 = i64::MIN;
    let mut i: usize = 0;
    while i < points.len()
        invariant
            i <= points.len(),
            min == lowest(line, points@.take(i as int)),
            max == highest(line, points@.take(i as int)),
        decreases points.len() - i,
    {
        let projection: i64 = project_point(line, points[i]);
        proof {
            let next = points@.take(i + 1);
            assert(next.drop_last() =~= points@.take(i as int));
            assert(next.last() == points@[i as int]);
        }
        if projection < min {
            min = projection;
        }
        if projection > max {
            max = projection;
        }
        i = i + 1;
    }
    assert(points@.take(i as int) =~= points@);
    Vector::new(min, max)
}

/// The interval that a circle covers on the axis `line`.
pub fn project_circle(line: &Rectangle, center: Vector, radius: i64) -> (r: Vector)
    ensures
        r == circle_shadow(line, center, radius),
{
    let middle: i64 = project_point(line, center);
    Vector::new(fx_sub(middle, radius), fx_add(middle, radius))
}

/// A vector divided by its length is not longer than one along either
/// axis, and points the way of the vector: each coordinate is zero or has
/// the sign that it had.
pub proof fn lemma_norm_within_one(v: Vector)
    ensures
        -ONE <= v.norm().x <= ONE,
        -ONE <= v.norm().y <= ONE,
        v.norm().x == 0 || (v.norm().x > 0 <==> v.x > 0),
        v.norm().y == 0 || (v.norm().y > 0 <==> v.y > 0),
{
    let one = ONE as int;
    let dd = v.x * v.x + v.y * v.y;
    let ax = magnitude(v.x as int);
    let ay = magnitude(v.y as int);
    assert(ax * ax == v.x * v.x && ay * ay == v.y * v.y) by (nonlinear_arith)
        requires
            ax == v.x || ax == -v.x,
            ay == v.y || ay == -v.y,
    ;
    assert(dd >= 0 && ax * ax <= dd && ay * ay <= dd) by (nonlinear_arith)
        requires
            dd == v.x * v.x + v.y * v.y,
            ax * ax == v.x * v.x,
            ay * ay == v.y * v.y,
    ;
    lemma_root_exists(dd);
    lemma_square_smaller(ax, root(dd) + 1);
    lemma_square_smaller(ay, root(dd) + 1);
    let len = v.len();
    if len > 0 {
        // The length is the root, or the greatest value where the root is
        // past it; either way it is at least as large as each coordinate,
        // but for the least value, whose distance from zero is one more.
        assert(ax <= len + 1 && ay <= len + 1);
        lemma_toward_zero(v.x * one, len as int);
        lemma_toward_zero(v.y * one, len as int);
        let tx = toward_zero(v.x * one, len as int);
        let ty = toward_zero(v.y * one, len as int);
        assert(magnitude(tx) <= one && magnitude(ty) <= one) by (nonlinear_arith)
            requires
                magnitude(tx) * len <= ax * one,
                magnitude(ty) * len <= ay * one,
                magnitude(v.x * one) == ax * one,
                magnitude(v.y * one) == ay * one,
                0 <= ax <= len + 1,
                0 <= ay <= len + 1,
                len >= 0x7fff_ffff_ffff_ffff || (ax <= len && ay <= len),
                len > 0,
                one == 0x1_0000_0000,
        ;
    }
}

} // verus!
