//! One type for every kind of body.
use crate::circle::CircleObject;
use crate::fixed::tame;
use crate::geometry::{Rectangle, Vector};
use crate::polyhedron::PolyhedronObject;
use crate::rectangle::RectangleObject;
use vstd::prelude::*;

verus! {

/// A body of one of the three kinds.
pub enum MetaObject {
    Rect(RectangleObject),
    Circle(CircleObject),
    Poly(PolyhedronObject),
}

impl MetaObject {
    /// The body after `delta_time` of travel at its speed.
    pub open spec fn ticked(self, delta_time: i64) -> Self {
        match self {
            MetaObject::Rect(rect) => MetaObject::Rect(rect.ticked(delta_time)),
            MetaObject::Circle(circle) => MetaObject::Circle(circle.ticked(delta_time)),
            MetaObject::Poly(poly) => MetaObject::Poly(poly.ticked(delta_time)),
        }
    }

    /// The body displaced by `direction`.
    pub open spec fn moved(self, direction: Vector) -> Self {
        match self {
            MetaObject::Rect(rect) => MetaObject::Rect(rect.moved(direction)),
            MetaObject::Circle(circle) => MetaObject::Circle(circle.moved(direction)),
            MetaObject::Poly(poly) => MetaObject::Poly(poly.moved(direction)),
        }
    }

    /// The body with `speed` added to its speed.
    pub open spec fn kicked(self, speed: Vector) -> Self {
        match self {
            MetaObject::Rect(rect) => MetaObject::Rect(rect.kicked(speed)),
            MetaObject::Circle(circle) => MetaObject::Circle(circle.kicked(speed)),
            MetaObject::Poly(poly) => MetaObject::Poly(poly.kicked(speed)),
        }
    }

    /// The speed of the body.
    pub open spec fn velocity(&self) -> Vector {
        match self {
            MetaObject::Rect(rect) => rect.speed,
            MetaObject::Circle(circle) => circle.speed,
            MetaObject::Poly(poly) => poly.speed,
        }
    }

    /// The box around the body, where the body is now.
    pub open spec fn bounds(&self) -> Rectangle {
        match self {
            MetaObject::Rect(rect) => rect.shape,
            MetaObject::Circle(circle) => circle.bounds(),
            MetaObject::Poly(poly) => poly.bounds(),
        }
    }

    /// The two bodies are of one kind and of one shape: they differ at most
    /// in where they are and how fast they travel.
    pub open spec fn alike(&self, other: &MetaObject) -> bool {
        match (self, other) {
            (MetaObject::Rect(a), MetaObject::Rect(b)) => a.shape.size == b.shape.size
                && a.immovable == b.immovable,
            (MetaObject::Circle(a), MetaObject::Circle(b)) => a.radius == b.radius,
            (MetaObject::Poly(a), MetaObject::Poly(b)) => a.points == b.points && a.aabb
                == b.aabb,
            _ => false,
        }
    }

    /// The body takes part in motion: it is not an immovable box.
    pub open spec fn movable(&self) -> bool {
        !(self matches MetaObject::Rect(rect) && rect.immovable)
    }

    /// Where the body is and how large it is are at most `LIMIT` away from
    /// zero, coordinate by coordinate.
    pub open spec fn tame(&self) -> bool {
        match self {
            MetaObject::Rect(rect) => tame(rect.shape.coord.x) && tame(rect.shape.coord.y)
                && tame(rect.shape.size.x) && tame(rect.shape.size.y),
            MetaObject::Circle(circle) => tame(circle.center.x) && tame(circle.center.y) && tame(
                circle.radius,
            ),
            MetaObject::Poly(poly) => tame(poly.center.x) && tame(poly.center.y) && tame(
                poly.aabb.coord.x,
            ) && tame(poly.aabb.coord.y) && tame(poly.aabb.size.x) && tame(poly.aabb.size.y),
        }
    }

    /// The push that separates the body from `other`, pointing from the
    /// body toward `other`; `None` when the two are found apart.
    #[verifier::opaque]
    pub open spec fn push_from(&self, other: &MetaObject) -> Option<Vector> {
        match self {
            MetaObject::Rect(rect) => rect.push_from(other),
            MetaObject::Circle(circle) => circle.push_from(other),
            MetaObject::Poly(poly) => poly.push_from(other),
        }
    }

    /// Lets the body travel for `delta_time`.
    pub fn tick(&mut self, delta_time: i64)
        ensures
            *final(self) == old(self).ticked(delta_time),
    {
        match self {
            MetaObject::Rect(rect) => rect.tick(delta_time),
            MetaObject::Circle(circle) => circle.tick(delta_time),
            MetaObject::Poly(poly) => poly.tick(delta_time),
        }
    }

    /// The push between the body and `other`, pointing from the body toward
    /// `other`.
    pub fn collides_with(&self, other: &MetaObject) -> (r: Option<Vector>)
        ensures
            r == self.push_from(other),
    {
        reveal(MetaObject::push_from);
        match self {
            MetaObject::Rect(rect) => rect.collides_with(other),
            MetaObject::Circle(circle) => circle.collides_with(other),
            MetaObject::Poly(poly) => poly.collides_with(other),
        }
    }

    /// The speed of the body.
    pub fn speed(&self) -> (r: Vector)
        ensures
            r == self.velocity(),
    {
        match self {
            MetaObject::Rect(rect) => rect.speed(),
            MetaObject::Circle(circle) => circle.speed(),
            MetaObject::Poly(poly) => poly.speed(),
        }
    }

    /// Displaces the body by `direction`.
    pub fn mov(&mut self, direction: Vector)
        ensures
            *final(self) == old(self).moved(direction),
    {
        match self {
            MetaObject::Rect(rect) => rect.mov(direction),
            MetaObject::Circle(circle) => circle.mov(direction),
            MetaObject::Poly(poly) => poly.mov(direction),
        }
    }

    /// Adds `speed` to the speed of the body.
    pub fn kick(&mut self, speed: Vector)
        ensures
            *final(self) == old(self).kicked(speed),
    {
        match self {
            MetaObject::Rect(rect) => rect.kick(speed),
            MetaObject::Circle(circle) => circle.kick(speed),
            MetaObject::Poly(poly) => poly.kick(speed),
        }
    }

    /// The box around the body, where the body is now.
    pub fn aabb(&self) -> (r: Rectangle)
        ensures
            r == self.bounds(),
    {
        match self {
            MetaObject::Rect(rect) => rect.aabb(),
            MetaObject::Circle(circle) => circle.aabb(),
            MetaObject::Poly(poly) => poly.aabb(),
        }
    }
}

} // verus!
