//! Rectangular bodies.
use crate::collisions::{
    box_push, circle_rect_push, collide_circle_rect, collide_poly_rect, collide_rect_rect,
    poly_rect_push, reversed,
};
use crate::fixed::MINUS_ONE;
use crate::geometry::{Rectangle, Vector};
use crate::object::MetaObject;
use vstd::prelude::*;

verus! {

/// An axis-aligned box that moves, unless it is immovable.
pub struct RectangleObject {
    pub shape: Rectangle,
    pub speed: Vector,
    pub immovable: bool,
}

impl RectangleObject {
    /// A movable box with its corner at `(x, y)`, `w` wide and `h` high.
    pub fn new(x: i64, y: i64, w: i64, h: i64, speed: Vector) -> (r: Self)
        ensures
            r == (RectangleObject {
                shape: Rectangle { coord: Vector { x, y }, size: Vector { x: w, y: h } },
                speed,
                immovable: false,
            }),
    {
        Self { shape: Rectangle::new(x, y, w, h), speed, immovable: false }
    }

    /// A movable box, as a body.
    pub fn new_obj(x: i64, y: i64, w: i64, h: i64, speed: Vector) -> (o: MetaObject)
        ensures
            o == MetaObject::Rect(
                RectangleObject {
                    shape: Rectangle { coord: Vector { x, y }, size: Vector { x: w, y: h } },
                    speed,
                    immovable: false,
                },
            ),
    {
        MetaObject::Rect(Self::new(x, y, w, h, speed))
    }

    /// An immovable box, as a body.
    pub fn new_obj_immovable(x: i64, y: i64, w: i64, h: i64, speed: Vector) -> (o: MetaObject)
        ensures
            o == MetaObject::Rect(
                RectangleObject {
                    shape: Rectangle { coord: Vector { x, y }, size: Vector { x: w, y: h } },
                    speed,
                    immovable: true,
                },
            ),
    {
        MetaObject::Rect(
            RectangleObject { shape: Rectangle::new(x, y, w, h), speed, immovable: true },
        )
    }

    /// The left edge.
    pub open spec fn spec_left(&self) -> i64 {
        self.shape.left()
    }

    /// The right edge.
    pub open spec fn spec_right(&self) -> i64 {
        self.shape.right()
    }

    /// The top edge.
    pub open spec fn spec_top(&self) -> i64 {
        self.shape.top()
    }

    /// The bottom edge.
    pub open spec fn spec_bottom(&self) -> i64 {
        self.shape.bottom()
    }

    /// The middle of the box.
    pub open spec fn spec_center(&self) -> Vector {
        self.shape.center()
    }

    /// The left edge.
    #[verifier::when_used_as_spec(spec_left)]
    pub fn left(&self) -> (r: i64)
        ensures
            r == self.shape.left(),
    {
        self.shape.left()
    }

    /// The right edge.
    #[verifier::when_used_as_spec(spec_right)]
    pub fn right(&self) -> (r: i64)
        ensures
            r == self.shape.right(),
    {
        self.shape.right()
    }

    /// The top edge.
    #[verifier::when_used_as_spec(spec_top)]
    pub fn top(&self) -> (r: i64)
        ensures
            r == self.shape.top(),
    {
        self.shape.top()
    }

    /// The bottom edge.
    #[verifier::when_used_as_spec(spec_bottom)]
    pub fn bottom(&self) -> (r: i64)
        ensures
            r == self.shape.bottom(),
    {
        self.shape.bottom()
    }

    /// The middle of the box.
    #[verifier::when_used_as_spec(spec_center)]
    pub fn center(&self) -> (r: Vector)
        ensures
            r == self.shape.center(),
    {
        self.shape.center()
    }

    /// The box after `delta_time` of travel at its speed; an immovable box
    /// stays.
    pub open spec fn ticked(self, delta_time: i64) -> Self {
        if self.immovable {
            self
        } else {
            RectangleObject {
                shape: Rectangle {
                    coord: self.shape.coord.plus(self.speed.scaled(delta_time)),
                    ..self.shape
                },
                ..self
            }
        }
    }

    /// The box displaced by `direction`; an immovable box stays.
    pub open spec fn moved(self, direction: Vector) -> Self {
        if self.immovable {
            self
        } else {
            RectangleObject {
                shape: Rectangle { coord: self.shape.coord.plus(direction), ..self.shape },
                ..self
            }
        }
    }

    /// The box with `speed` added to its speed; an immovable box keeps its
    /// speed.
    pub open spec fn kicked(self, speed: Vector) -> Self {
        if self.immovable {
            self
        } else {
            RectangleObject { speed: self.speed.plus(speed), ..self }
        }
    }

    /// The push that separates the box from `other`, pointing from the box
    /// toward `other`.
    pub open spec fn push_from(&self, other: &MetaObject) -> Option<Vector> {
        match other {
            MetaObject::Rect(rect) => box_push(&self.shape, &rect.shape),
            MetaObject::Circle(circle) => reversed(circle_rect_push(circle, self)),
            MetaObject::Poly(poly) => reversed(poly_rect_push(poly, self)),
        }
    }

    /// Lets the box travel for `delta_time`, unless it is immovable.
    pub fn tick(&mut self, delta_time: i64)
        ensures
            *final(self) == old(self).ticked(delta_time),
    {
        if self.immovable {
            return ;
        }
        self.shape.coord = self.shape.coord + self.speed * delta_time;
    }

    /// The push between the box and `other`, pointing from the box toward
    /// `other`.
    pub fn collides_with(&self, other: &MetaObject) -> (r: Option<Vector>)
        ensures
            r == self.push_from(other),
    {
        match other {
            MetaObject::Rect(rect) => collide_rect_rect(self, rect),
            MetaObject::Circle(circle) => match collide_circle_rect(circle, self) {
                Some(push) => Some(push * MINUS_ONE),
                None => None,
            },
            MetaObject::Poly(poly) => match collide_poly_rect(poly, self) {
                Some(push) => Some(push * MINUS_ONE),
                None => None,
            },
        }
    }

    /// Displaces the box by `direction`, unless it is immovable.
    pub fn mov(&mut self, direction: Vector)
        ensures
            *final(self) == old(self).moved(direction),
    {
        if self.immovable {
            return ;
        }
        self.shape.coord = self.shape.coord + direction;
    }

    /// Adds `speed` to the speed of the box, unless it is immovable.
    pub fn kick(&mut self, speed: Vector)
        ensures
            *final(self) == old(self).kicked(speed),
    {
        if self.immovable {
            return ;
        }
        self.speed = self.speed + speed;
    }

    /// The speed of the box.
    pub fn speed(&self) -> (r: Vector)
        ensures
            r == self.speed,
    {
        self.speed
    }

    /// The box itself.
    pub fn aabb(&self) -> (r: Rectangle)
        ensures
            r == self.shape,
    {
        self.shape
    }
}

} // verus!
