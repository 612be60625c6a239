//! Circular bodies.
use crate::collisions::{
    circle_push, circle_rect_push, collide_circle_rect, collide_cirle_circle,
    collide_poly_circle, poly_circle_push, reversed,
};
use crate::fixed::{
    diff, lemma_root_exists, lemma_square_smaller, magnitude, root, tame, MINUS_ONE, TWO,
};
use crate::geometry::{Rectangle, Vector};
use crate::object::MetaObject;
use vstd::prelude::*;

verus! {

/// A moving disc.
pub struct CircleObject {
    pub center: Vector,
    pub radius: i64,
    pub speed: Vector,
}

impl CircleObject {
    /// A disc around `center`.
    pub fn new(center: Vector, radius: i64, speed: Vector) -> (c: Self)
        ensures
            c == (CircleObject { center, radius, speed }),
    {
        Self { center, radius, speed }
    }

    /// A disc around `center`, as a body.
    pub fn new_obj(center: Vector, radius: i64, speed: Vector) -> (o: MetaObject)
        ensures
            o == MetaObject::Circle(CircleObject { center, radius, speed }),
    {
        MetaObject::Circle(Self::new(center, radius, speed))
    }

    /// The disc after `delta_time` of travel at its speed.
    pub open spec fn ticked(self, delta_time: i64) -> Self {
        CircleObject { center: self.center.plus(self.speed.scaled(delta_time)), ..self }
    }

    /// The disc displaced by `direction`.
    pub open spec fn moved(self, direction: Vector) -> Self {
        CircleObject { center: self.center.plus(direction), ..self }
    }

    /// The disc with `speed` added to its speed.
    pub open spec fn kicked(self, speed: Vector) -> Self {
        CircleObject { speed: self.speed.plus(speed), ..self }
    }

    /// The square around the disc.
    pub open spec fn bounds(&self) -> Rectangle {
        Rectangle {
            coord: Vector {
                x: diff(self.center.x, self.radius),
                y: diff(self.center.y, self.radius),
            },
            size: (Vector { x: self.radius, y: self.radius }).scaled(TWO),
        }
    }

    /// The push that separates the disc from `other`, pointing from the disc
    /// toward `other`.
    pub open spec fn push_from(&self, other: &MetaObject) -> Option<Vector> {
        match other {
            MetaObject::Circle(circle) => circle_push(self, circle),
            MetaObject::Rect(rect) => circle_rect_push(self, rect),
            MetaObject::Poly(poly) => reversed(poly_circle_push(poly, self)),
        }
    }

    /// Lets the disc travel for `delta_time`.
    pub fn tick(&mut self, delta_time: i64)
        ensures
            *final(self) == old(self).ticked(delta_time),
    {
        self.center = self.center + self.speed() * delta_time;
    }

    /// The push between the disc and `other`, pointing from the disc toward
    /// `other`.
    pub fn collides_with(&self, other: &MetaObject) -> (r: Option<Vector>)
        ensures
            r == self.push_from(other),
    {
        match other {
            MetaObject::Circle(circle) => collide_cirle_circle(self, circle),
            MetaObject::Rect(rect) => collide_circle_rect(self, rect),
            MetaObject::Poly(poly) => match collide_poly_circle(poly, self) {
                Some(push) => Some(push * MINUS_ONE),
                None => None,
            },
        }
    }

    /// The speed of the disc.
    pub fn speed(&self) -> (r: Vector)
        ensures
            r == self.speed,
    {
        self.speed
    }

    /// Displaces the disc by `direction`.
    pub fn mov(&mut self, direction: Vector)
        ensures
            *final(self) == old(self).moved(direction),
    {
        self.center = self.center + direction;
    }

    /// Adds `speed` to the speed of the disc.
    pub fn kick(&mut self, speed: Vector)
        ensures
            *final(self) == old(self).kicked(speed),
    {
        self.speed = self.speed + speed;
    }

    /// The box around the disc.
    pub fn aabb(&self) -> (r: Rectangle)
        ensures
            r == self.bounds(),
    {
        let rad = Vector::new(self.radius, self.radius);
        Rectangle::new_vec(self.center - rad, rad * TWO)
    }
}

/// The box around a disc holds the disc.
///
/// For a disc within `LIMIT` whose radius is not negative, the box reaches
/// from the center by the radius to every side, and every point that is not
/// farther from the center than the radius lies within the box.
pub proof fn lemma_circle_bounds(circle: &CircleObject, point: Vector)
    requires
        tame(circle.center.x) && tame(circle.center.y) && tame(circle.radius),
        tame(point.x) && tame(point.y),
        circle.radius >= 0,
    ensures
        circle.bounds().left() == circle.center.x - circle.radius,
        circle.bounds().right() == circle.center.x + circle.radius,
        circle.bounds().top() == circle.center.y - circle.radius,
        circle.bounds().bottom() == circle.center.y + circle.radius,
        point.minus(circle.center).len() <= circle.radius ==> circle.bounds().left() <= point.x
            <= circle.bounds().right() && circle.bounds().top() <= point.y
            <= circle.bounds().bottom(),
{
    let dx: int = point.x - circle.center.x;
    let dy: int = point.y - circle.center.y;
    let away = point.minus(circle.center);
    assert(away.x == dx && away.y == dy);
    let dd = dx * dx + dy * dy;
    let ax = magnitude(dx);
    let ay = magnitude(dy);
    assert(ax * ax == dx * dx && ay * ay == dy * dy) by (nonlinear_arith)
        requires
            ax == dx || ax == -dx,
            ay == dy || ay == -dy,
    ;
    assert(dd >= 0 && ax * ax <= dd && ay * ay <= dd) by (nonlinear_arith)
        requires
            dd == dx * dx + dy * dy,
            ax * ax == dx * dx,
            ay * ay == dy * dy,
    ;
    lemma_root_exists(dd);
    lemma_square_smaller(ax, root(dd) + 1);
    lemma_square_smaller(ay, root(dd) + 1);
}

} // verus!
