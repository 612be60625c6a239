//! Convex polygonal bodies.
use crate::collisions::{
    collide_poly_circle, collide_poly_poly, collide_poly_rect, poly_circle_push, poly_poly_push,
    poly_rect_push,
};
use crate::fixed::{fx_neg, negated, tame};
use crate::geometry::{Rectangle, Vector};
use crate::object::MetaObject;
use vstd::prelude::*;

verus! {

/// A convex polygon: vertex offsets around a moving center.  The offsets
/// never change, so the polygon travels without turning.
pub struct PolyhedronObject {
    pub center: Vector,
    pub points: Vec<Vector>,
    pub speed: Vector,
    pub aabb: Rectangle,
}

/// The extremes of `points`, coordinate by coordinate: `coord` holds the
/// least `x` and the least `y`, `size` the greatest `x` and the greatest `y`.
/// With no points, the least is `i64::MAX` and the greatest `i64::MIN`.
pub open spec fn extremes(points: Seq<Vector>) -> Rectangle
    decreases points.len(),
{
    if points.len() == 0 {
        Rectangle {
            coord: Vector { x: i64::MAX, y: i64::MAX },
            size: Vector { x: i64::MIN, y: i64::MIN },
        }
    } else {
        let rest = extremes(points.drop_last());
        let p = points.last();
        Rectangle {
            coord: Vector {
                x: if p.x < rest.coord.x {
                    p.x
                } else {
                    rest.coord.x
                },
                y: if p.y < rest.coord.y {
                    p.y
                } else {
                    rest.coord.y
                },
            },
            size: Vector {
                x: if p.x > rest.size.x {
                    p.x
                } else {
                    rest.size.x
                },
                y: if p.y > rest.size.y {
                    p.y
                } else {
                    rest.size.y
                },
            },
        }
    }
}

/// The smallest box around `points`: its corner at the least coordinates,
/// its size the greatest coordinates less the least.
pub open spec fn frame(points: Seq<Vector>) -> Rectangle {
    Rectangle {
        coord: extremes(points).coord,
        size: extremes(points).size.minus(extremes(points).coord),
    }
}

/// The extremes bound every point.
pub proof fn lemma_extremes_bound(points: Seq<Vector>, i: int)
    requires
        0 <= i < points.len(),
    ensures
        extremes(points).coord.x <= points[i].x <= extremes(points).size.x,
        extremes(points).coord.y <= points[i].y <= extremes(points).size.y,
    decreases points.len(),
{
    if i < points.len() - 1 {
        lemma_extremes_bound(points.drop_last(), i);
    }
}

/// The vector turned by a quarter: `(x, y)` becomes `(-y, x)`.
pub open spec fn quarter_turn(v: Vector) -> Vector {
    Vector { x: negated(v.y), y: v.x }
}

impl PolyhedronObject {
    /// The frame kept in `aabb` is the frame of the offsets.
    pub open spec fn wf(&self) -> bool {
        self.aabb == frame(self.points@)
    }

    /// The vertices in the plane: each offset added to the center.
    pub open spec fn vertices(&self) -> Seq<Vector> {
        Seq::new(self.points@.len(), |i: int| self.points@[i].plus(self.center))
    }

    /// The axis of edge `i`: it starts at vertex `i` and points along the
    /// unit normal of the edge from vertex `i` to the next vertex.
    pub open spec fn edge_axis(&self, i: int) -> Rectangle {
        let j = (i + 1) % (self.points@.len() as int);
        Rectangle {
            coord: self.points@[i].plus(self.center),
            size: quarter_turn(self.points@[i].minus(self.points@[j]).norm()),
        }
    }

    /// The axes of all edges, in the order of the vertices.
    pub open spec fn edge_axes(&self) -> Seq<Rectangle> {
        Seq::new(self.points@.len(), |i: int| self.edge_axis(i))
    }

    /// The polygon after `delta_time` of travel at its speed.
    pub open spec fn ticked(self, delta_time: i64) -> Self {
        PolyhedronObject { center: self.center.plus(self.speed.scaled(delta_time)), ..self }
    }

    /// The polygon displaced by `direction`.
    pub open spec fn moved(self, direction: Vector) -> Self {
        PolyhedronObject { center: self.center.plus(direction), ..self }
    }

    /// The polygon with `speed` added to its speed.
    pub open spec fn kicked(self, speed: Vector) -> Self {
        PolyhedronObject { speed: self.speed.plus(speed), ..self }
    }

    /// The kept frame, carried to where the polygon is.
    pub open spec fn bounds(&self) -> Rectangle {
        Rectangle { coord: self.aabb.coord.plus(self.center), size: self.aabb.size }
    }

    /// The push that separates the polygon from `other`, pointing from the
    /// polygon toward `other`.
    pub open spec fn push_from(&self, other: &MetaObject) -> Option<Vector> {
        match other {
            MetaObject::Rect(rect) => poly_rect_push(self, rect),
            MetaObject::Circle(circle) => poly_circle_push(self, circle),
            MetaObject::Poly(poly) => poly_poly_push(self, poly),
        }
    }

    /// A polygon with the vertex offsets `points` around `center`.
    pub fn new(center: Vector, points: Vec<Vector>, speed: Vector) -> (p: Self)
        ensures
            p == (PolyhedronObject { center, points, speed, aabb: frame(points@) }),
            p.wf(),
    {
        let mut aabb = Rectangle::new(i64::MAX, i64::MAX, i64::MIN, i64::MIN);
        let mut i: usize = 0;
        while i < points.len()
            invariant
                i <= points.len(),
                aabb == extremes(points@.take(i as int)),
            decreases points.len() - i,
        {
            let p = points[i];
            proof {
                let next = points@.take(i + 1);
                assert(next.drop_last() =~= points@.take(i as int));
                assert(next.last() == p);
            }
            if p.x < aabb.coord.x {
                aabb.coord.x = p.x;
            }
            if p.x > aabb.size.x {
                aabb.size.x = p.x;
            }
            if p.y < aabb.coord.y {
                aabb.coord.y = p.y;
            }
            if p.y > aabb.size.y {
                aabb.size.y = p.y;
            }
            i = i + 1;
        }
        assert(points@.take(i as int) =~= points@);
        let aabb_size = aabb.size - aabb.coord;
        aabb.size = aabb_size;
        Self { center, points, speed, aabb }
    }

    /// A polygon with the vertex offsets `points` around `center`, as a body.
    pub fn new_obj(center: Vector, points: Vec<Vector>, speed: Vector) -> (o: MetaObject)
        ensures
            o == MetaObject::Poly(
                PolyhedronObject { center, points, speed, aabb: frame(points@) },
            ),
    {
        MetaObject::Poly(Self::new(center, points, speed))
    }

    /// Lets the polygon travel for `delta_time`.
    pub fn tick(&mut self, delta_time: i64)
        ensures
            *final(self) == old(self).ticked(delta_time),
    {
        self.center = self.center + self.speed() * delta_time;
    }

    /// The push between the polygon and `other`, pointing from the polygon
    /// toward `other`.
    pub fn collides_with(&self, other: &MetaObject) -> (r: Option<Vector>)
        ensures
            r == self.push_from(other),
    {
        match other {
            MetaObject::Rect(rect) => collide_poly_rect(self, rect),
            MetaObject::Circle(circle) => collide_poly_circle(self, circle),
            MetaObject::Poly(poly) => collide_poly_poly(self, poly),
        }
    }

    /// The speed of the polygon.
    pub fn speed(&self) -> (r: Vector)
        ensures
            r == self.speed,
    {
        self.speed
    }

    /// Displaces the polygon by `direction`.
    pub fn mov(&mut self, direction: Vector)
        ensures
            *final(self) == old(self).moved(direction),
    {
        self.center = self.center + direction;
    }

    /// Adds `speed` to the speed of the polygon.
    pub fn kick(&mut self, speed: Vector)
        ensures
            *final(self) == old(self).kicked(speed),
    {
        self.speed = self.speed + speed;
    }

    /// The box around the polygon, where the polygon is now.
    pub fn aabb(&self) -> (r: Rectangle)
        ensures
            r == self.bounds(),
    {
        let mut aabb = self.aabb;
        aabb.coord = aabb.coord + self.center;
        aabb
    }

    /// The vertices in the plane.
    pub fn points(&self) -> (r: Vec<Vector>)
        ensures
            r@ == self.vertices(),
    {
        let mut r: Vec<Vector> = Vec::with_capacity(self.points.len());
        let mut i: usize = 0;
        while i < self.points.len()
            invariant
                i <= self.points.len(),
                r@ == self.vertices().take(i as int),
            decreases self.points.len() - i,
        {
            r.push(self.points[i] + self.center);
            assert(r@ =~= self.vertices().take(i + 1));
            i = i + 1;
        }
        assert(self.vertices().take(i as int) =~= self.vertices());
        r
    }

    /// The number of vertices.
    pub fn points_len(&self) -> (r: usize)
        ensures
            r == self.points@.len(),
    {
        self.points.len()
    }

    /// The axes of all edges, in the order of the vertices.
    pub fn lines(&self) -> (r: Vec<Rectangle>)
        ensures
            r@ == self.edge_axes(),
    {
        let n: usize = self.points.len();
        let mut r: Vec<Rectangle> = Vec::with_capacity(n);
        let mut i: usize = 0;
        while i < n
            invariant
                n == self.points.len(),
                i <= n,
                r@ == self.edge_axes().take(i as int),
            decreases n - i,
        {
            let j: usize = (i + 1) % n;
            let along = (self.points[i] - self.points[j]).norm();
            let across = Vector::new(fx_neg(along.y), along.x);
            r.push(Rectangle::new_vec(self.points[i] + self.center, across));
            assert(r@ =~= self.edge_axes().take(i + 1));
            i = i + 1;
        }
        assert(self.edge_axes().take(i as int) =~= self.edge_axes());
        r
    }
}

/// The box around a polygon holds every vertex of the polygon.
///
/// This is so for a polygon that keeps the frame of its offsets, with at
/// least one vertex, whose center and offsets are within `LIMIT`.
pub proof fn lemma_polygon_bounds(poly: &PolyhedronObject, i: int)
    requires
        poly.wf(),
        0 <= i < poly.points@.len(),
        tame(poly.center.x) && tame(poly.center.y),
        forall|k: int|
            0 <= k < poly.points@.len() ==> tame((#[trigger] poly.points@[k]).x) && tame(
                poly.points@[k].y,
            ),
    ensures
        poly.bounds().left() <= poly.vertices()[i].x <= poly.bounds().right(),
        poly.bounds().top() <= poly.vertices()[i].y <= poly.bounds().bottom(),
{
    lemma_extremes_bound(poly.points@, i);
    lemma_extremes_among(poly.points@);
}

/// Each extreme of a list of points is a coordinate of one of the points.
pub proof fn lemma_extremes_among(points: Seq<Vector>)
    requires
        points.len() > 0,
    ensures
        exists|i: int| 0 <= i < points.len() && extremes(points).coord.x == points[i].x,
        exists|i: int| 0 <= i < points.len() && extremes(points).coord.y == points[i].y,
        exists|i: int| 0 <= i < points.len() && extremes(points).size.x == points[i].x,
        exists|i: int| 0 <= i < points.len() && extremes(points).size.y == points[i].y,
    decreases points.len(),
{
    let init = points.drop_last();
    let k = points.len() - 1;
    if init.len() > 0 {
        lemma_extremes_among(init);
        let a = choose|i: int| 0 <= i < init.len() && extremes(init).coord.x == init[i].x;
        let b = choose|i: int| 0 <= i < init.len() && extremes(init).coord.y == init[i].y;
        let c = choose|i: int| 0 <= i < init.len() && extremes(init).size.x == init[i].x;
        let d = choose|i: int| 0 <= i < init.len() && extremes(init).size.y == init[i].y;
        assert(init[a] == points[a] && init[b] == points[b] && init[c] == points[c] && init[d]
            == points[d]);
        assert(extremes(points).coord.x == points[k].x || extremes(points).coord.x
            == points[a].x);
        assert(extremes(points).coord.y == points[k].y || extremes(points).coord.y
            == points[b].y);
        assert(extremes(points).size.x == points[k].x || extremes(points).size.x == points[c].x);
        assert(extremes(points).size.y == points[k].y || extremes(points).size.y == points[d].y);
    } else {
        reveal_with_fuel(extremes, 2);
        assert(extremes(points).coord.x == points[k].x);
        assert(extremes(points).coord.y == points[k].y);
        assert(extremes(points).size.x == points[k].x);
        assert(extremes(points).size.y == points[k].y);
    }
}

} // verus!
